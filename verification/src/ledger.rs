//! Account-level state transitions of the transparent ledger: transfers,
//! refunds, storage deposits, staking, delegation, validator exit, and the
//! nonce discipline of signed transactions.
//!
//! Each transition takes the records it touches. The vesting-aware
//! transferable balance of the sender (what its vesting schedule leaves
//! unlocked at the current epoch) is an input, as are the records looked up
//! in the state store; a transition mutates what it is handed exactly as the
//! executor does, including the mutations that precede a refusal.

use vstd::prelude::*;
use crate::errors::{ExecutionError, ContractFault};
use crate::hashing::bytes32_eq;

verus! {

/// Epochs a validator or delegator waits between exiting and reclaiming stake.
pub const UNBONDING_PERIOD_EPOCHS: u64 = 256;

/// A transparent account as the execution layer reads and writes it.
#[derive(Clone, Copy, PartialEq, Eq, Debug)]
pub struct Account {
    pub address: [u8; 32],
    pub balance: u64,
    pub nonce: u64,
    pub storage_deposit: u64,
    pub storage_bytes: u64,
    /// Anchor from which demurrage accrues; reset by every balance or nonce change.
    pub last_touched_epoch: u64,
}

/// A validator's stake.
#[derive(Clone, Copy, PartialEq, Eq, Debug)]
pub struct StakeRecord {
    pub validator_id: u64,
    pub validator_address: [u8; 32],
    pub staked_amount: u64,
    pub staked_at_epoch: u64,
    pub unbonding_epoch: Option<u64>,
    pub slashed_amount: u64,
}

/// A delegator's stake with one validator.
#[derive(Clone, Copy, PartialEq, Eq, Debug)]
pub struct DelegationRecord {
    pub delegator: [u8; 32],
    pub validator_id: u64,
    pub amount: u64,
    pub delegated_at_epoch: u64,
    pub unbonding_amount: u64,
    pub unbonding_epoch: Option<u64>,
}

/// Saturating `u64` addition.
pub open spec fn sat_add(a: u64, b: u64) -> u64 {
    if a + b > u64::MAX { u64::MAX } else { (a + b) as u64 }
}

/// Saturating `u64` subtraction.
pub open spec fn sat_sub(a: u64, b: u64) -> u64 {
    if a >= b { (a - b) as u64 } else { 0 }
}

fn add_sat(a: u64, b: u64) -> (r: u64)
    ensures
        r == sat_add(a, b),
{
    match a.checked_add(b) {
        Some(v) => v,
        None => u64::MAX,
    }
}

fn sub_sat(a: u64, b: u64) -> (r: u64)
    ensures
        r == sat_sub(a, b),
{
    if a >= b { a - b } else { 0 }
}

/// The all-zero address: transfers from it mint without a nonce.
pub open spec fn is_zero_address(a: Seq<u8>) -> bool {
    forall|i: int| 0 <= i < a.len() ==> a[i] == 0
}

fn zero_address(a: &[u8; 32]) -> (r: bool)
    ensures
        r == is_zero_address(a@),
{
    let mut i: usize = 0;
    while i < 32
        invariant
            0 <= i <= 32,
            a@.len() == 32,
            forall|j: int| 0 <= j < i ==> a@[j] == 0,
        decreases 32 - i,
    {
        if a[i] != 0 {
            return false;
        }
        i = i + 1;
    }
    true
}

/// A transparent transfer.
#[derive(Clone, Copy, Debug)]
pub struct TransferTx {
    pub from: [u8; 32],
    pub to: [u8; 32],
    pub amount: u64,
    pub nonce: u64,
}

/// Execute a transfer of `tx.amount` from `sender` (the account at
/// `tx.from`) to `receiver` (the account at `tx.to`).
///
/// Refused for a self-transfer, a zero amount, a nonce other than the
/// sender's, or an amount above what the sender may spend: its
/// `transferable` balance, or its whole balance for the all-zero mint
/// address, which also skips the nonce check and increment. On success the
/// sender is debited and (unless minting) its nonce bumped, the receiver is
/// credited (saturating), and both demurrage anchors move to `epoch`.
pub fn execute_transfer(sender: &mut Account, receiver: &mut Account, tx: &TransferTx, transferable: u64, epoch: u64)
    -> (r: Result<(), ExecutionError>)
    requires
        old(sender).address == tx.from,
        old(receiver).address == tx.to,
        transferable <= old(sender).balance,
        !is_zero_address(tx.from@) && old(sender).nonce == tx.nonce && tx.amount <= transferable
            && tx.from@ != tx.to@ && tx.amount > 0 ==> old(sender).nonce < u64::MAX,
    ensures
        tx.from@ == tx.to@ ==> r == Err::<(), ExecutionError>(ExecutionError::SelfTransfer)
            && *final(sender) == *old(sender) && *final(receiver) == *old(receiver),
        tx.from@ != tx.to@ && tx.amount == 0 ==> r == Err::<(), ExecutionError>(ExecutionError::ZeroAmount)
            && *final(sender) == *old(sender) && *final(receiver) == *old(receiver),
        tx.from@ != tx.to@ && tx.amount > 0 ==> ({
            let mint = is_zero_address(tx.from@);
            let available = if mint { old(sender).balance } else { transferable };
            if !mint && old(sender).nonce != tx.nonce {
                r == Err::<(), ExecutionError>(ExecutionError::InvalidNonce { expected: old(sender).nonce, got: tx.nonce })
                    && *final(sender) == *old(sender) && *final(receiver) == *old(receiver)
            } else if available < tx.amount {
                r == Err::<(), ExecutionError>(ExecutionError::InsufficientBalance { account: tx.from, available, required: tx.amount })
                    && *final(sender) == *old(sender) && *final(receiver) == *old(receiver)
            } else {
                &&& r == Ok::<(), ExecutionError>(())
                &&& *final(sender) == (Account {
                    balance: (old(sender).balance - tx.amount) as u64,
                    nonce: if mint { old(sender).nonce } else { (old(sender).nonce + 1) as u64 },
                    last_touched_epoch: epoch,
                    ..*old(sender)
                })
                &&& *final(receiver) == (Account {
                    balance: sat_add(old(receiver).balance, tx.amount),
                    last_touched_epoch: epoch,
                    ..*old(receiver)
                })
            }
        }),
        // A committed transfer moves value without creating or destroying
        // any, unless the receiver's balance saturates.
        r is Ok && old(receiver).balance + tx.amount <= u64::MAX ==>
            final(sender).balance + final(receiver).balance == old(sender).balance + old(receiver).balance,
{
    if bytes32_eq(&tx.from, &tx.to) {
        return Err(ExecutionError::SelfTransfer);
    }
    if tx.amount == 0 {
        return Err(ExecutionError::ZeroAmount);
    }
    let mint = zero_address(&tx.from);
    if !mint && sender.nonce != tx.nonce {
        return Err(ExecutionError::InvalidNonce { expected: sender.nonce, got: tx.nonce });
    }
    let available = if mint { sender.balance } else { transferable };
    if available < tx.amount {
        return Err(ExecutionError::InsufficientBalance { account: tx.from, available, required: tx.amount });
    }
    sender.balance = sender.balance - tx.amount;
    if !mint {
        sender.nonce = sender.nonce + 1;
    }
    sender.last_touched_epoch = epoch;
    receiver.balance = add_sat(receiver.balance, tx.amount);
    receiver.last_touched_epoch = epoch;
    Ok(())
}

/// A protocol-issued refund from an attacker to a victim.
#[derive(Clone, Copy, Debug)]
pub struct RefundTx {
    pub attacker: [u8; 32],
    pub victim: [u8; 32],
    pub amount: u64,
    pub source_block_height: u64,
    pub source_observation_idx: u32,
    pub settle_block_height: u64,
}

/// Execute a refund: move `tx.amount` from the attacker's account to the
/// victim's, with no nonce involved. Refused when attacker and victim are
/// the same, for a zero amount, or when the attacker's balance falls short.
pub fn execute_refund(attacker: &mut Account, victim: &mut Account, tx: &RefundTx, epoch: u64)
    -> (r: Result<(), ExecutionError>)
    requires
        old(attacker).address == tx.attacker,
        old(victim).address == tx.victim,
    ensures
        tx.attacker@ == tx.victim@ ==> r == Err::<(), ExecutionError>(ExecutionError::SelfTransfer),
        tx.attacker@ != tx.victim@ && tx.amount == 0 ==> r == Err::<(), ExecutionError>(ExecutionError::ZeroAmount),
        tx.attacker@ != tx.victim@ && tx.amount > 0 && old(attacker).balance < tx.amount ==>
            r == Err::<(), ExecutionError>(ExecutionError::InsufficientBalance {
                account: tx.attacker,
                available: old(attacker).balance,
                required: tx.amount,
            }),
        r is Err ==> *final(attacker) == *old(attacker) && *final(victim) == *old(victim),
        tx.attacker@ != tx.victim@ && tx.amount > 0 && old(attacker).balance >= tx.amount ==> {
            &&& r == Ok::<(), ExecutionError>(())
            &&& *final(attacker) == (Account {
                balance: (old(attacker).balance - tx.amount) as u64,
                last_touched_epoch: epoch,
                ..*old(attacker)
            })
            &&& *final(victim) == (Account {
                balance: sat_add(old(victim).balance, tx.amount),
                last_touched_epoch: epoch,
                ..*old(victim)
            })
        },
        // A refund moves value without creating or destroying any, unless
        // the victim's balance saturates.
        r is Ok && old(victim).balance + tx.amount <= u64::MAX ==>
            final(attacker).balance + final(victim).balance == old(attacker).balance + old(victim).balance,
{
    if bytes32_eq(&tx.attacker, &tx.victim) {
        return Err(ExecutionError::SelfTransfer);
    }
    if tx.amount == 0 {
        return Err(ExecutionError::ZeroAmount);
    }
    if attacker.balance < tx.amount {
        return Err(ExecutionError::InsufficientBalance {
            account: tx.attacker,
            available: attacker.balance,
            required: tx.amount,
        });
    }
    attacker.balance = attacker.balance - tx.amount;
    attacker.last_touched_epoch = epoch;
    victim.balance = add_sat(victim.balance, tx.amount);
    victim.last_touched_epoch = epoch;
    Ok(())
}

/// Fixed bytes charged to every stored object (id, owner, energy, half-life,
/// timestamps, state).
pub const BASE_OBJECT_BYTES: u64 = 97;
/// Fixed bytes charged to every deployed contract.
pub const BASE_CONTRACT_BYTES: u64 = 256;
/// Fixed bytes charged to every deployed script.
pub const BASE_SCRIPT_BYTES: u64 = 128;

/// Storage bytes of an object with `data_len` bytes of data.
pub fn object_storage_bytes(data_len: usize) -> (b: u64)
    ensures
        b == sat_add(BASE_OBJECT_BYTES, data_len as u64),
{
    add_sat(BASE_OBJECT_BYTES, data_len as u64)
}

/// Storage bytes of a contract with `init_len` bytes of initial arguments and
/// optional rules text of `rules_len` bytes.
pub fn contract_storage_bytes(init_len: usize, rules_len: Option<usize>) -> (b: u64)
    ensures
        b == sat_add(sat_add(BASE_CONTRACT_BYTES, init_len as u64),
            match rules_len { Some(n) => n as u64, None => 0 }),
{
    let rules = match rules_len {
        Some(n) => n as u64,
        None => 0,
    };
    add_sat(add_sat(BASE_CONTRACT_BYTES, init_len as u64), rules)
}

/// Storage bytes of a script with `source_len` bytes of source.
pub fn script_storage_bytes(source_len: usize) -> (b: u64)
    ensures
        b == sat_add(BASE_SCRIPT_BYTES, source_len as u64),
{
    add_sat(BASE_SCRIPT_BYTES, source_len as u64)
}

/// Lock a storage deposit of `deposit` from `acct` and charge it `bytes` of
/// storage: refused unless its `transferable` balance covers the deposit.
/// The deposit moves from the balance to `storage_deposit` (saturating), the
/// bytes are added (saturating) and the demurrage anchor moves to `epoch`.
pub fn lock_storage_deposit(acct: &mut Account, transferable: u64, deposit: u64, bytes: u64, epoch: u64)
    -> (r: Result<(), ExecutionError>)
    requires
        transferable <= old(acct).balance,
    ensures
        transferable < deposit ==> r == Err::<(), ExecutionError>(ExecutionError::InsufficientBalance {
            account: old(acct).address,
            available: transferable,
            required: deposit,
        }) && *final(acct) == *old(acct),
        transferable >= deposit ==> r == Ok::<(), ExecutionError>(()) && *final(acct) == (Account {
            balance: (old(acct).balance - deposit) as u64,
            storage_deposit: sat_add(old(acct).storage_deposit, deposit),
            storage_bytes: sat_add(old(acct).storage_bytes, bytes),
            last_touched_epoch: epoch,
            ..*old(acct)
        }),
{
    if transferable < deposit {
        return Err(ExecutionError::InsufficientBalance {
            account: acct.address,
            available: transferable,
            required: deposit,
        });
    }
    acct.balance = acct.balance - deposit;
    acct.storage_deposit = add_sat(acct.storage_deposit, deposit);
    acct.last_touched_epoch = epoch;
    acct.storage_bytes = add_sat(acct.storage_bytes, bytes);
    Ok(())
}

/// Admit an object creation: refused when an object with this id already
/// exists; otherwise the creator locks `min_deposit` and is charged the
/// object's storage bytes (see `lock_storage_deposit`).
pub fn execute_create_object(
    creator: &mut Account,
    object_id: [u8; 32],
    object_exists: bool,
    data_len: usize,
    transferable: u64,
    min_deposit: u64,
    epoch: u64,
) -> (r: Result<(), ExecutionError>)
    requires
        transferable <= old(creator).balance,
    ensures
        object_exists ==> r == Err::<(), ExecutionError>(ExecutionError::ObjectAlreadyExists(object_id))
            && *final(creator) == *old(creator),
        !object_exists && transferable < min_deposit ==> r == Err::<(), ExecutionError>(ExecutionError::InsufficientBalance {
            account: old(creator).address,
            available: transferable,
            required: min_deposit,
        }) && *final(creator) == *old(creator),
        !object_exists && transferable >= min_deposit ==> r == Ok::<(), ExecutionError>(()) && *final(creator) == (Account {
            balance: (old(creator).balance - min_deposit) as u64,
            storage_deposit: sat_add(old(creator).storage_deposit, min_deposit),
            storage_bytes: sat_add(old(creator).storage_bytes, sat_add(BASE_OBJECT_BYTES, data_len as u64)),
            last_touched_epoch: epoch,
            ..*old(creator)
        }),
{
    if object_exists {
        return Err(ExecutionError::ObjectAlreadyExists(object_id));
    }
    let bytes = object_storage_bytes(data_len);
    lock_storage_deposit(creator, transferable, min_deposit, bytes, epoch)
}

/// Check `acct`'s nonce against `nonce`; on a match bump it (saturating when
/// `saturating`, else it must not overflow) and move the demurrage anchor.
pub fn check_and_bump_nonce(acct: &mut Account, nonce: u64, saturating: bool, epoch: u64) -> (r: Result<(), ExecutionError>)
    requires
        !saturating && old(acct).nonce == nonce ==> old(acct).nonce < u64::MAX,
    ensures
        old(acct).nonce != nonce ==> r == Err::<(), ExecutionError>(ExecutionError::InvalidNonce {
            expected: old(acct).nonce,
            got: nonce,
        }) && *final(acct) == *old(acct),
        old(acct).nonce == nonce ==> r == Ok::<(), ExecutionError>(()) && *final(acct) == (Account {
            nonce: sat_add(old(acct).nonce, 1),
            last_touched_epoch: epoch,
            ..*old(acct)
        }),
{
    if acct.nonce != nonce {
        return Err(ExecutionError::InvalidNonce { expected: acct.nonce, got: nonce });
    }
    acct.nonce = if saturating { add_sat(acct.nonce, 1) } else { acct.nonce + 1 };
    acct.last_touched_epoch = epoch;
    Ok(())
}

/// A validator staking transaction.
#[derive(Clone, Copy, Debug)]
pub struct ValidatorStakeTx {
    pub validator_address: [u8; 32],
    pub validator_id: u64,
    pub stake_amount: u64,
    pub nonce: u64,
}

/// Lock `tx.stake_amount` from the validator's account into its stake.
/// Refused for a zero amount, a wrong nonce, or an amount above the
/// `transferable` balance. On success the balance is debited, the nonce
/// bumped, and the stake record (adding to `existing_stake`) returned,
/// stamped with `epoch` and not unbonding.
pub fn execute_validator_stake(sender: &mut Account, tx: &ValidatorStakeTx, transferable: u64, existing_stake: Option<u64>, epoch: u64)
    -> (r: Result<StakeRecord, ExecutionError>)
    requires
        old(sender).address == tx.validator_address,
        transferable <= old(sender).balance,
        tx.stake_amount > 0 && old(sender).nonce == tx.nonce && tx.stake_amount <= transferable ==> {
            &&& old(sender).nonce < u64::MAX
            &&& match existing_stake { Some(s) => s + tx.stake_amount <= u64::MAX, None => true }
        },
    ensures
        tx.stake_amount == 0 ==> r == Err::<StakeRecord, ExecutionError>(ExecutionError::ZeroAmount),
        tx.stake_amount > 0 && old(sender).nonce != tx.nonce ==>
            r == Err::<StakeRecord, ExecutionError>(ExecutionError::InvalidNonce { expected: old(sender).nonce, got: tx.nonce }),
        tx.stake_amount > 0 && old(sender).nonce == tx.nonce && transferable < tx.stake_amount ==>
            r == Err::<StakeRecord, ExecutionError>(ExecutionError::InsufficientBalance {
                account: tx.validator_address,
                available: transferable,
                required: tx.stake_amount,
            }),
        r is Err ==> *final(sender) == *old(sender),
        tx.stake_amount > 0 && old(sender).nonce == tx.nonce && transferable >= tx.stake_amount ==> {
            &&& r == Ok::<StakeRecord, ExecutionError>(StakeRecord {
                validator_id: tx.validator_id,
                validator_address: tx.validator_address,
                staked_amount: (match existing_stake { Some(s) => s, None => 0 } + tx.stake_amount) as u64,
                staked_at_epoch: epoch,
                unbonding_epoch: None,
                slashed_amount: 0,
            })
            &&& *final(sender) == (Account {
                balance: (old(sender).balance - tx.stake_amount) as u64,
                nonce: (old(sender).nonce + 1) as u64,
                last_touched_epoch: epoch,
                ..*old(sender)
            })
        },
{
    if tx.stake_amount == 0 {
        return Err(ExecutionError::ZeroAmount);
    }
    if sender.nonce != tx.nonce {
        return Err(ExecutionError::InvalidNonce { expected: sender.nonce, got: tx.nonce });
    }
    if transferable < tx.stake_amount {
        return Err(ExecutionError::InsufficientBalance {
            account: tx.validator_address,
            available: transferable,
            required: tx.stake_amount,
        });
    }
    sender.balance = sender.balance - tx.stake_amount;
    sender.nonce = sender.nonce + 1;
    sender.last_touched_epoch = epoch;
    let existing = match existing_stake {
        Some(s) => s,
        None => 0,
    };
    Ok(StakeRecord {
        validator_id: tx.validator_id,
        validator_address: tx.validator_address,
        staked_amount: existing + tx.stake_amount,
        staked_at_epoch: epoch,
        unbonding_epoch: None,
        slashed_amount: 0,
    })
}

/// A delegation, undelegation or delegation claim transaction.
#[derive(Clone, Copy, Debug)]
pub struct DelegationTx {
    pub delegator: [u8; 32],
    pub validator_id: u64,
    pub amount: u64,
    pub nonce: u64,
}

/// Delegate `tx.amount` to a validator. Refused for a zero amount, when the
/// validator has no stake record, for a wrong nonce, or an amount above the
/// `transferable` balance. On success the delegator is debited and its nonce
/// bumped; the returned record adds to the existing delegation (saturating)
/// or starts a new one, stamped with `epoch`.
pub fn execute_delegate(
    delegator: &mut Account,
    tx: &DelegationTx,
    transferable: u64,
    validator_has_stake: bool,
    existing: Option<DelegationRecord>,
    epoch: u64,
) -> (r: Result<DelegationRecord, ExecutionError>)
    requires
        old(delegator).address == tx.delegator,
        transferable <= old(delegator).balance,
        tx.amount > 0 && validator_has_stake && old(delegator).nonce == tx.nonce && tx.amount <= transferable
            ==> old(delegator).nonce < u64::MAX,
    ensures
        tx.amount == 0 ==> r == Err::<DelegationRecord, ExecutionError>(ExecutionError::ZeroAmount),
        tx.amount > 0 && !validator_has_stake ==> r == Err::<DelegationRecord, ExecutionError>(
            ExecutionError::ContractError(ContractFault::ValidatorHasNoStake { validator_id: tx.validator_id })),
        tx.amount > 0 && validator_has_stake && old(delegator).nonce != tx.nonce ==>
            r == Err::<DelegationRecord, ExecutionError>(ExecutionError::InvalidNonce { expected: old(delegator).nonce, got: tx.nonce }),
        tx.amount > 0 && validator_has_stake && old(delegator).nonce == tx.nonce && transferable < tx.amount ==>
            r == Err::<DelegationRecord, ExecutionError>(ExecutionError::InsufficientBalance {
                account: tx.delegator,
                available: transferable,
                required: tx.amount,
            }),
        r is Err ==> *final(delegator) == *old(delegator),
        tx.amount > 0 && validator_has_stake && old(delegator).nonce == tx.nonce && transferable >= tx.amount ==> {
            &&& r == Ok::<DelegationRecord, ExecutionError>(match existing {
                Some(d) => DelegationRecord { amount: sat_add(d.amount, tx.amount), delegated_at_epoch: epoch, ..d },
                None => DelegationRecord {
                    delegator: tx.delegator,
                    validator_id: tx.validator_id,
                    amount: tx.amount,
                    delegated_at_epoch: epoch,
                    unbonding_amount: 0,
                    unbonding_epoch: None,
                },
            })
            &&& *final(delegator) == (Account {
                balance: (old(delegator).balance - tx.amount) as u64,
                nonce: (old(delegator).nonce + 1) as u64,
                last_touched_epoch: epoch,
                ..*old(delegator)
            })
        },
{
    if tx.amount == 0 {
        return Err(ExecutionError::ZeroAmount);
    }
    if !validator_has_stake {
        return Err(ExecutionError::ContractError(ContractFault::ValidatorHasNoStake { validator_id: tx.validator_id }));
    }
    if delegator.nonce != tx.nonce {
        return Err(ExecutionError::InvalidNonce { expected: delegator.nonce, got: tx.nonce });
    }
    if transferable < tx.amount {
        return Err(ExecutionError::InsufficientBalance {
            account: tx.delegator,
            available: transferable,
            required: tx.amount,
        });
    }
    delegator.balance = delegator.balance - tx.amount;
    delegator.nonce = delegator.nonce + 1;
    delegator.last_touched_epoch = epoch;
    let record = match existing {
        Some(d) => DelegationRecord { amount: add_sat(d.amount, tx.amount), delegated_at_epoch: epoch, ..d },
        None => DelegationRecord {
            delegator: tx.delegator,
            validator_id: tx.validator_id,
            amount: tx.amount,
            delegated_at_epoch: epoch,
            unbonding_amount: 0,
            unbonding_epoch: None,
        },
    };
    Ok(record)
}

/// Start unbonding `tx.amount` of a delegation. Refused for a zero amount or
/// a wrong nonce; otherwise the nonce is bumped first, and then refused
/// without a delegation or when it holds less than `tx.amount`. On success
/// the amount moves from `amount` to `unbonding_amount` with unbonding
/// starting at `epoch`.
pub fn execute_undelegate(delegator: &mut Account, tx: &DelegationTx, existing: Option<DelegationRecord>, epoch: u64)
    -> (r: Result<DelegationRecord, ExecutionError>)
    requires
        old(delegator).address == tx.delegator,
        tx.amount > 0 && old(delegator).nonce == tx.nonce ==> old(delegator).nonce < u64::MAX,
    ensures
        tx.amount == 0 ==> r == Err::<DelegationRecord, ExecutionError>(ExecutionError::ZeroAmount)
            && *final(delegator) == *old(delegator),
        tx.amount > 0 && old(delegator).nonce != tx.nonce ==>
            r == Err::<DelegationRecord, ExecutionError>(ExecutionError::InvalidNonce { expected: old(delegator).nonce, got: tx.nonce })
            && *final(delegator) == *old(delegator),
        tx.amount > 0 && old(delegator).nonce == tx.nonce ==> {
            &&& *final(delegator) == (Account {
                nonce: (old(delegator).nonce + 1) as u64,
                last_touched_epoch: epoch,
                ..*old(delegator)
            })
            &&& r == match existing {
                None => Err(ExecutionError::ContractError(ContractFault::NoDelegation {
                    delegator: tx.delegator,
                    validator_id: tx.validator_id,
                })),
                Some(d) => if d.amount < tx.amount {
                    Err(ExecutionError::ContractError(ContractFault::DelegationTooSmall { delegated: d.amount, requested: tx.amount }))
                } else {
                    Ok(DelegationRecord {
                        amount: (d.amount - tx.amount) as u64,
                        unbonding_amount: sat_add(d.unbonding_amount, tx.amount),
                        unbonding_epoch: Some(epoch),
                        ..d
                    })
                },
            }
        },
{
    if tx.amount == 0 {
        return Err(ExecutionError::ZeroAmount);
    }
    if delegator.nonce != tx.nonce {
        return Err(ExecutionError::InvalidNonce { expected: delegator.nonce, got: tx.nonce });
    }
    delegator.nonce = delegator.nonce + 1;
    delegator.last_touched_epoch = epoch;
    match existing {
        None => Err(ExecutionError::ContractError(ContractFault::NoDelegation {
            delegator: tx.delegator,
            validator_id: tx.validator_id,
        })),
        Some(d) => {
            if d.amount < tx.amount {
                Err(ExecutionError::ContractError(ContractFault::DelegationTooSmall { delegated: d.amount, requested: tx.amount }))
            } else {
                Ok(DelegationRecord {
                    amount: d.amount - tx.amount,
                    unbonding_amount: add_sat(d.unbonding_amount, tx.amount),
                    unbonding_epoch: Some(epoch),
                    ..d
                })
            }
        },
    }
}

/// What claiming an unbonded delegation leaves: the delegation, or `None`
/// when nothing remains in it.
pub open spec fn claimed_record(d: DelegationRecord) -> Option<DelegationRecord> {
    if d.amount == 0 {
        None
    } else {
        Some(DelegationRecord { unbonding_amount: 0, unbonding_epoch: None, ..d })
    }
}

/// Claim a delegation's unbonded amount back to the delegator's balance.
/// Refused for a wrong nonce; otherwise the nonce is bumped first, and then
/// refused without a delegation, with nothing unbonding, without an
/// unbonding epoch, or before `unbonding_epoch + UNBONDING_PERIOD_EPOCHS`
/// (saturating). On success the unbonding amount is credited (saturating)
/// and returned with what remains of the delegation.
pub fn execute_claim_delegation(delegator: &mut Account, tx: &DelegationTx, existing: Option<DelegationRecord>, epoch: u64)
    -> (r: Result<(u64, Option<DelegationRecord>), ExecutionError>)
    requires
        old(delegator).address == tx.delegator,
        old(delegator).nonce == tx.nonce ==> old(delegator).nonce < u64::MAX,
    ensures
        old(delegator).nonce != tx.nonce ==>
            r == Err::<(u64, Option<DelegationRecord>), ExecutionError>(ExecutionError::InvalidNonce { expected: old(delegator).nonce, got: tx.nonce })
            && *final(delegator) == *old(delegator),
        old(delegator).nonce == tx.nonce ==> {
            let bumped = Account { nonce: (old(delegator).nonce + 1) as u64, last_touched_epoch: epoch, ..*old(delegator) };
            match existing {
                None => r == Err::<(u64, Option<DelegationRecord>), ExecutionError>(ExecutionError::ContractError(ContractFault::NoDelegation {
                    delegator: tx.delegator,
                    validator_id: tx.validator_id,
                })) && *final(delegator) == bumped,
                Some(d) => if d.unbonding_amount == 0 {
                    r == Err::<(u64, Option<DelegationRecord>), ExecutionError>(ExecutionError::ContractError(ContractFault::NothingToClaim))
                        && *final(delegator) == bumped
                } else if d.unbonding_epoch is None {
                    r == Err::<(u64, Option<DelegationRecord>), ExecutionError>(ExecutionError::ContractError(ContractFault::UnbondingEpochUnset))
                        && *final(delegator) == bumped
                } else if epoch < sat_add(d.unbonding_epoch->0, UNBONDING_PERIOD_EPOCHS) {
                    r == Err::<(u64, Option<DelegationRecord>), ExecutionError>(ExecutionError::ContractError(ContractFault::DelegationUnbonding {
                        claimable_at: sat_add(d.unbonding_epoch->0, UNBONDING_PERIOD_EPOCHS),
                        current: epoch,
                    })) && *final(delegator) == bumped
                } else {
                    &&& r == Ok::<(u64, Option<DelegationRecord>), ExecutionError>((d.unbonding_amount, claimed_record(d)))
                    &&& *final(delegator) == (Account { balance: sat_add(bumped.balance, d.unbonding_amount), ..bumped })
                },
            }
        },
{
    if delegator.nonce != tx.nonce {
        return Err(ExecutionError::InvalidNonce { expected: delegator.nonce, got: tx.nonce });
    }
    delegator.nonce = delegator.nonce + 1;
    delegator.last_touched_epoch = epoch;
    let d = match existing {
        None => {
            return Err(ExecutionError::ContractError(ContractFault::NoDelegation {
                delegator: tx.delegator,
                validator_id: tx.validator_id,
            }));
        },
        Some(d) => d,
    };
    if d.unbonding_amount == 0 {
        return Err(ExecutionError::ContractError(ContractFault::NothingToClaim));
    }
    let started = match d.unbonding_epoch {
        None => {
            return Err(ExecutionError::ContractError(ContractFault::UnbondingEpochUnset));
        },
        Some(e) => e,
    };
    let ready_at = add_sat(started, UNBONDING_PERIOD_EPOCHS);
    if epoch < ready_at {
        return Err(ExecutionError::ContractError(ContractFault::DelegationUnbonding { claimable_at: ready_at, current: epoch }));
    }
    let claimed = d.unbonding_amount;
    delegator.balance = add_sat(delegator.balance, claimed);
    delegator.last_touched_epoch = epoch;
    let remaining = if d.amount == 0 {
        None
    } else {
        Some(DelegationRecord { unbonding_amount: 0, unbonding_epoch: None, ..d })
    };
    Ok((claimed, remaining))
}

/// A validator exit or stake-claim transaction.
#[derive(Clone, Copy, Debug)]
pub struct ValidatorTx {
    pub validator_address: [u8; 32],
    pub validator_id: u64,
    pub nonce: u64,
}

/// Start a validator's exit. Refused for a wrong nonce; otherwise the nonce is
/// bumped first, and then refused without a stake record, when the stake
/// belongs to another address, or when the validator is already exiting. On
/// success the returned stake unbonds at `epoch + UNBONDING_PERIOD_EPOCHS`.
pub fn execute_validator_exit(sender: &mut Account, tx: &ValidatorTx, stake: Option<StakeRecord>, epoch: u64)
    -> (r: Result<StakeRecord, ExecutionError>)
    requires
        old(sender).address == tx.validator_address,
        old(sender).nonce == tx.nonce ==> old(sender).nonce < u64::MAX,
        epoch + UNBONDING_PERIOD_EPOCHS <= u64::MAX,
    ensures
        old(sender).nonce != tx.nonce ==>
            r == Err::<StakeRecord, ExecutionError>(ExecutionError::InvalidNonce { expected: old(sender).nonce, got: tx.nonce })
            && *final(sender) == *old(sender),
        old(sender).nonce == tx.nonce ==> {
            &&& *final(sender) == (Account { nonce: (old(sender).nonce + 1) as u64, last_touched_epoch: epoch, ..*old(sender) })
            &&& r == match stake {
                None => Err(ExecutionError::StakeNotFound { validator_id: tx.validator_id }),
                Some(s) => if s.validator_address@ != tx.validator_address@ {
                    Err(ExecutionError::InvalidSignature)
                } else if s.unbonding_epoch is Some {
                    Err(ExecutionError::ContractError(ContractFault::ValidatorAlreadyExiting))
                } else {
                    Ok(StakeRecord { unbonding_epoch: Some((epoch + UNBONDING_PERIOD_EPOCHS) as u64), ..s })
                },
            }
        },
{
    if sender.nonce != tx.nonce {
        return Err(ExecutionError::InvalidNonce { expected: sender.nonce, got: tx.nonce });
    }
    sender.nonce = sender.nonce + 1;
    sender.last_touched_epoch = epoch;
    match stake {
        None => Err(ExecutionError::StakeNotFound { validator_id: tx.validator_id }),
        Some(s) => {
            if !bytes32_eq(&s.validator_address, &tx.validator_address) {
                Err(ExecutionError::InvalidSignature)
            } else if s.unbonding_epoch.is_some() {
                Err(ExecutionError::ContractError(ContractFault::ValidatorAlreadyExiting))
            } else {
                Ok(StakeRecord { unbonding_epoch: Some(epoch + UNBONDING_PERIOD_EPOCHS), ..s })
            }
        },
    }
}

/// Reclaim an exited validator's stake. Refused without a stake record, when
/// it belongs to another address, when the validator has not exited, before
/// its unbonding epoch, or for a wrong nonce. On success the stake less what
/// was slashed (saturating) is credited, the nonce bumped, and the amount
/// returned; the caller removes the stake record.
pub fn execute_validator_claim_stake(sender: &mut Account, tx: &ValidatorTx, stake: Option<StakeRecord>, epoch: u64)
    -> (r: Result<u64, ExecutionError>)
    requires
        old(sender).address == tx.validator_address,
        match stake {
            Some(s) => s.validator_address@ == tx.validator_address@ && s.unbonding_epoch is Some
                && epoch >= s.unbonding_epoch->0 && old(sender).nonce == tx.nonce ==> {
                &&& old(sender).nonce < u64::MAX
                &&& old(sender).balance + sat_sub(s.staked_amount, s.slashed_amount) <= u64::MAX
            },
            None => true,
        },
    ensures
        r is Err ==> *final(sender) == *old(sender),
        match stake {
            None => r == Err::<u64, ExecutionError>(ExecutionError::StakeNotFound { validator_id: tx.validator_id }),
            Some(s) => if s.validator_address@ != tx.validator_address@ {
                r == Err::<u64, ExecutionError>(ExecutionError::InvalidSignature)
            } else if s.unbonding_epoch is None {
                r == Err::<u64, ExecutionError>(ExecutionError::ContractError(ContractFault::ValidatorNotExited))
            } else if epoch < s.unbonding_epoch->0 {
                r == Err::<u64, ExecutionError>(ExecutionError::ContractError(ContractFault::StakeUnbonding {
                    current: epoch,
                    unbonding: s.unbonding_epoch->0,
                }))
            } else if old(sender).nonce != tx.nonce {
                r == Err::<u64, ExecutionError>(ExecutionError::InvalidNonce { expected: old(sender).nonce, got: tx.nonce })
            } else {
                &&& r == Ok::<u64, ExecutionError>(sat_sub(s.staked_amount, s.slashed_amount))
                &&& *final(sender) == (Account {
                    balance: (old(sender).balance + sat_sub(s.staked_amount, s.slashed_amount)) as u64,
                    nonce: (old(sender).nonce + 1) as u64,
                    last_touched_epoch: epoch,
                    ..*old(sender)
                })
            },
        },
{
    let s = match stake {
        None => {
            return Err(ExecutionError::StakeNotFound { validator_id: tx.validator_id });
        },
        Some(s) => s,
    };
    if !bytes32_eq(&s.validator_address, &tx.validator_address) {
        return Err(ExecutionError::InvalidSignature);
    }
    let unbonding = match s.unbonding_epoch {
        None => {
            return Err(ExecutionError::ContractError(ContractFault::ValidatorNotExited));
        },
        Some(u) => u,
    };
    if epoch < unbonding {
        return Err(ExecutionError::ContractError(ContractFault::StakeUnbonding { current: epoch, unbonding }));
    }
    if sender.nonce != tx.nonce {
        return Err(ExecutionError::InvalidNonce { expected: sender.nonce, got: tx.nonce });
    }
    let claimable = sub_sat(s.staked_amount, s.slashed_amount);
    sender.balance = sender.balance + claimable;
    sender.nonce = sender.nonce + 1;
    sender.last_touched_epoch = epoch;
    Ok(claimable)
}

} // verus!
