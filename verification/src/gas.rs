//! Gas schedule: what each kind of transaction is charged before it runs,
//! and the gas-priority ordering of a block's transactions.

use vstd::prelude::*;
use crate::ordering::{is_desc_stable_order, desc_stable_order};

verus! {

pub const GAS_TRANSFER: u64 = 21_000;
pub const GAS_CREATE_OBJECT_BASE: u64 = 50_000;
pub const GAS_CREATE_OBJECT_PER_BYTE: u64 = 200;
pub const GAS_REFRESH: u64 = 30_000;
pub const GAS_DEPLOY_CONTRACT: u64 = 100_000;
pub const GAS_CALL_CONTRACT: u64 = 40_000;
pub const GAS_DEPLOY_SCRIPT: u64 = 150_000;
pub const GAS_CALL_SCRIPT: u64 = 50_000;
pub const GAS_VALIDATOR_STAKE: u64 = 50_000;
pub const GAS_VALIDATOR_EXIT: u64 = 30_000;
pub const GAS_VALIDATOR_CLAIM_STAKE: u64 = 30_000;
pub const GAS_GOVERNANCE: u64 = 25_000;
pub const GAS_MULTISIG: u64 = 50_000;
pub const GAS_USER_OP: u64 = 30_000;
pub const GAS_UPGRADE_CONTRACT: u64 = 100_000;
pub const GAS_DELEGATE: u64 = 40_000;
pub const GAS_UNDELEGATE: u64 = 40_000;
pub const GAS_CLAIM_DELEGATION: u64 = 30_000;
/// Protocol-issued refund: two account touches, paid by the proposer.
pub const GAS_REFUND: u64 = 5_000;
/// Validator key rotation: two proof-of-possession checks plus the set update.
pub const GAS_ROTATE_VALIDATOR_KEY: u64 = 80_000;
/// Shielding transparent balance into a private note.
pub const GAS_SHIELD: u64 = 60_000;
/// Unshielding a private note into transparent balance.
pub const GAS_UNSHIELD: u64 = 80_000;
pub const GAS_PRIVATE_TRANSFER_BASE: u64 = 100_000;
pub const GAS_PRIVATE_TRANSFER_PER_INPUT: u64 = 20_000;
pub const GAS_PRIVATE_TRANSFER_PER_OUTPUT: u64 = 15_000;
/// Submitting a deferred (time-locked) transaction.
pub const GAS_DEFERRED_SUBMIT: u64 = 75_000;
/// Each temporal guard of a deferred transaction.
pub const GAS_PER_GUARD: u64 = 5_000;
/// Per byte of user-operation call data.
pub const GAS_USER_OP_PER_BYTE: u64 = 16;
/// Per byte of upgraded contract bytecode.
pub const GAS_UPGRADE_PER_BYTE: u64 = 200;

/// What the gas schedule reads of a transaction: its kind and the sizes
/// that its charge depends on.
#[derive(Clone, Copy, PartialEq, Eq, Structural, Debug)]
pub enum TxKind {
    Transfer,
    CreateObject { data_len: usize },
    Refresh,
    DeployContract,
    CallContract,
    DeployScript { source_len: usize },
    CallScript,
    ValidatorStake,
    ValidatorExit,
    ValidatorClaimStake,
    Shield,
    Unshield,
    PrivateTransfer { inputs: usize, outputs: usize },
    Deferred { guards: usize },
    Blob { data_len: usize },
    Governance,
    MultiSig,
    UserOp { call_data_len: usize },
    UpgradeContract { bytecode_len: usize },
    Delegate,
    Undelegate,
    RotateValidatorKey,
    ClaimDelegation,
    Refund,
}

/// Saturating addition on `u64` values.
pub open spec fn sat_add(a: int, b: int) -> int {
    if a + b > u64::MAX { u64::MAX as int } else { a + b }
}

/// Saturating multiplication on `u64` values.
pub open spec fn sat_mul(a: int, b: int) -> int {
    if a * b > u64::MAX { u64::MAX as int } else { a * b }
}

fn sat_add_u64(a: u64, b: u64) -> (r: u64)
    ensures
        r == sat_add(a as int, b as int),
{
    match a.checked_add(b) {
        Some(v) => v,
        None => u64::MAX,
    }
}

fn sat_mul_u64(a: u64, b: u64) -> (r: u64)
    ensures
        r == sat_mul(a as int, b as int),
{
    match a.checked_mul(b) {
        Some(v) => v,
        None => u64::MAX,
    }
}

/// Gas of a private transfer: base plus per-input and per-output charges, saturating.
pub open spec fn spec_private_transfer_gas(inputs: nat, outputs: nat) -> int {
    sat_add(
        sat_add(GAS_PRIVATE_TRANSFER_BASE as int, sat_mul(GAS_PRIVATE_TRANSFER_PER_INPUT as int, inputs as int)),
        sat_mul(GAS_PRIVATE_TRANSFER_PER_OUTPUT as int, outputs as int),
    )
}

/// Estimate gas for a private transfer with `inputs` nullifiers and `outputs`
/// output commitments (saturating, never wrapping).
pub fn estimate_private_transfer_gas(inputs: usize, outputs: usize) -> (gas: u64)
    ensures
        gas == spec_private_transfer_gas(inputs as nat, outputs as nat),
{
    sat_add_u64(
        sat_add_u64(GAS_PRIVATE_TRANSFER_BASE, sat_mul_u64(GAS_PRIVATE_TRANSFER_PER_INPUT, inputs as u64)),
        sat_mul_u64(GAS_PRIVATE_TRANSFER_PER_OUTPUT, outputs as u64),
    )
}

/// Sizes for which the per-byte charges of user operations and contract
/// upgrades fit in a `u64` before the saturating base is added.
pub open spec fn gas_sizes_bounded(tx: TxKind) -> bool {
    match tx {
        TxKind::UserOp { call_data_len } => call_data_len * GAS_USER_OP_PER_BYTE <= u64::MAX,
        TxKind::UpgradeContract { bytecode_len } => bytecode_len * GAS_UPGRADE_PER_BYTE <= u64::MAX,
        _ => true,
    }
}

/// The serial executor's gas schedule.
pub open spec fn spec_estimate_gas(tx: TxKind) -> int {
    match tx {
        TxKind::Transfer => GAS_TRANSFER as int,
        TxKind::CreateObject { data_len } =>
            sat_add(GAS_CREATE_OBJECT_BASE as int, sat_mul(GAS_CREATE_OBJECT_PER_BYTE as int, data_len as int)),
        TxKind::Refresh => GAS_REFRESH as int,
        TxKind::DeployContract => GAS_DEPLOY_CONTRACT as int,
        TxKind::CallContract => GAS_CALL_CONTRACT as int,
        TxKind::DeployScript { source_len } =>
            sat_add(GAS_DEPLOY_SCRIPT as int, sat_mul(GAS_CREATE_OBJECT_PER_BYTE as int, source_len as int)),
        TxKind::CallScript => GAS_CALL_SCRIPT as int,
        TxKind::ValidatorStake => GAS_VALIDATOR_STAKE as int,
        TxKind::ValidatorExit => GAS_VALIDATOR_EXIT as int,
        TxKind::ValidatorClaimStake => GAS_VALIDATOR_CLAIM_STAKE as int,
        TxKind::Shield => GAS_SHIELD as int,
        TxKind::Unshield => GAS_UNSHIELD as int,
        TxKind::PrivateTransfer { inputs, outputs } => spec_private_transfer_gas(inputs as nat, outputs as nat),
        TxKind::Deferred { guards } =>
            sat_add(GAS_DEFERRED_SUBMIT as int, sat_mul(GAS_PER_GUARD as int, guards as int)),
        TxKind::Blob { data_len } =>
            sat_add(GAS_CREATE_OBJECT_BASE as int, sat_mul(GAS_CREATE_OBJECT_PER_BYTE as int, data_len as int)),
        TxKind::Governance => GAS_GOVERNANCE as int,
        TxKind::MultiSig => GAS_MULTISIG as int,
        TxKind::UserOp { call_data_len } =>
            sat_add(GAS_USER_OP as int, call_data_len * GAS_USER_OP_PER_BYTE),
        TxKind::UpgradeContract { bytecode_len } =>
            sat_add(GAS_UPGRADE_CONTRACT as int, bytecode_len * GAS_UPGRADE_PER_BYTE),
        TxKind::Delegate => GAS_DELEGATE as int,
        TxKind::Undelegate => GAS_UNDELEGATE as int,
        TxKind::RotateValidatorKey => GAS_ROTATE_VALIDATOR_KEY as int,
        TxKind::ClaimDelegation => GAS_CLAIM_DELEGATION as int,
        TxKind::Refund => GAS_REFUND as int,
    }
}

/// Gas charged to a transaction by the serial executor.
pub fn estimate_gas(tx: &TxKind) -> (gas: u64)
    requires
        gas_sizes_bounded(*tx),
    ensures
        gas == spec_estimate_gas(*tx),
{
    match *tx {
        TxKind::Transfer => GAS_TRANSFER,
        TxKind::CreateObject { data_len } =>
            sat_add_u64(GAS_CREATE_OBJECT_BASE, sat_mul_u64(GAS_CREATE_OBJECT_PER_BYTE, data_len as u64)),
        TxKind::Refresh => GAS_REFRESH,
        TxKind::DeployContract => GAS_DEPLOY_CONTRACT,
        TxKind::CallContract => GAS_CALL_CONTRACT,
        TxKind::DeployScript { source_len } =>
            sat_add_u64(GAS_DEPLOY_SCRIPT, sat_mul_u64(GAS_CREATE_OBJECT_PER_BYTE, source_len as u64)),
        TxKind::CallScript => GAS_CALL_SCRIPT,
        TxKind::ValidatorStake => GAS_VALIDATOR_STAKE,
        TxKind::ValidatorExit => GAS_VALIDATOR_EXIT,
        TxKind::ValidatorClaimStake => GAS_VALIDATOR_CLAIM_STAKE,
        TxKind::Shield => GAS_SHIELD,
        TxKind::Unshield => GAS_UNSHIELD,
        TxKind::PrivateTransfer { inputs, outputs } => estimate_private_transfer_gas(inputs, outputs),
        TxKind::Deferred { guards } =>
            sat_add_u64(GAS_DEFERRED_SUBMIT, sat_mul_u64(GAS_PER_GUARD, guards as u64)),
        TxKind::Blob { data_len } =>
            sat_add_u64(GAS_CREATE_OBJECT_BASE, sat_mul_u64(GAS_CREATE_OBJECT_PER_BYTE, data_len as u64)),
        TxKind::Governance => GAS_GOVERNANCE,
        TxKind::MultiSig => GAS_MULTISIG,
        TxKind::UserOp { call_data_len } => sat_add_u64(GAS_USER_OP, call_data_len as u64 * GAS_USER_OP_PER_BYTE),
        TxKind::UpgradeContract { bytecode_len } =>
            sat_add_u64(GAS_UPGRADE_CONTRACT, bytecode_len as u64 * GAS_UPGRADE_PER_BYTE),
        TxKind::Delegate => GAS_DELEGATE,
        TxKind::Undelegate => GAS_UNDELEGATE,
        TxKind::RotateValidatorKey => GAS_ROTATE_VALIDATOR_KEY,
        TxKind::ClaimDelegation => GAS_CLAIM_DELEGATION,
        TxKind::Refund => GAS_REFUND,
    }
}

/// Sizes for which the parallel executor's unchecked gas arithmetic does not overflow.
pub open spec fn parallel_gas_defined(tx: TxKind) -> bool {
    match tx {
        TxKind::CreateObject { data_len } => GAS_CREATE_OBJECT_BASE + GAS_CREATE_OBJECT_PER_BYTE * data_len <= u64::MAX,
        TxKind::Blob { data_len } => GAS_CREATE_OBJECT_BASE + GAS_CREATE_OBJECT_PER_BYTE * data_len <= u64::MAX,
        TxKind::Deferred { guards } => GAS_DEFERRED_SUBMIT + GAS_PER_GUARD * guards <= u64::MAX,
        _ => gas_sizes_bounded(tx),
    }
}

/// The parallel executor's gas schedule: flat-rate script deploys and exact
/// (unsaturated) object, blob and deferred charges; otherwise the serial
/// schedule (refunds at the dedicated refund rate in both).
pub open spec fn spec_parallel_estimate_gas(tx: TxKind) -> int {
    match tx {
        TxKind::CreateObject { data_len } => GAS_CREATE_OBJECT_BASE + GAS_CREATE_OBJECT_PER_BYTE * data_len,
        TxKind::Blob { data_len } => GAS_CREATE_OBJECT_BASE + GAS_CREATE_OBJECT_PER_BYTE * data_len,
        TxKind::Deferred { guards } => GAS_DEFERRED_SUBMIT + GAS_PER_GUARD * guards,
        TxKind::DeployScript { .. } => GAS_DEPLOY_SCRIPT as int,
        _ => spec_estimate_gas(tx),
    }
}

/// Gas charged to a transaction by the parallel executor.
pub fn parallel_estimate_gas(tx: &TxKind) -> (gas: u64)
    requires
        parallel_gas_defined(*tx),
    ensures
        gas == spec_parallel_estimate_gas(*tx),
{
    match *tx {
        TxKind::CreateObject { data_len } => GAS_CREATE_OBJECT_BASE + GAS_CREATE_OBJECT_PER_BYTE * data_len as u64,
        TxKind::Blob { data_len } => GAS_CREATE_OBJECT_BASE + GAS_CREATE_OBJECT_PER_BYTE * data_len as u64,
        TxKind::Deferred { guards } => GAS_DEFERRED_SUBMIT + GAS_PER_GUARD * guards as u64,
        TxKind::DeployScript { .. } => GAS_DEPLOY_SCRIPT,
        _ => estimate_gas(tx),
    }
}

/// The estimated gas of each transaction.
pub open spec fn gas_keys(kinds: Seq<TxKind>) -> Seq<u64> {
    kinds.map_values(|k: TxKind| spec_estimate_gas(k) as u64)
}

/// `order` lists the indices of `kinds` once each, in gas-priority order:
/// more estimated gas first, block order among equals.
pub open spec fn is_gas_priority_order(kinds: Seq<TxKind>, order: Seq<usize>) -> bool {
    is_desc_stable_order(gas_keys(kinds), order)
}

/// The order in which a stable descending sort by estimated gas visits the
/// transactions.
pub fn gas_priority_order(kinds: &Vec<TxKind>) -> (order: Vec<usize>)
    requires
        forall|i: int| 0 <= i < kinds@.len() ==> gas_sizes_bounded(#[trigger] kinds@[i]),
    ensures
        is_gas_priority_order(kinds@, order@),
{
    let n = kinds.len();
    let mut gas: Vec<u64> = Vec::new();
    let mut k: usize = 0;
    while k < n
        invariant
            0 <= k <= n,
            n == kinds@.len(),
            forall|i: int| 0 <= i < kinds@.len() ==> gas_sizes_bounded(#[trigger] kinds@[i]),
            gas@ == gas_keys(kinds@).take(k as int),
        decreases n - k,
    {
        gas.push(estimate_gas(&kinds[k]));
        proof { assert(gas@ =~= gas_keys(kinds@).take(k + 1)); }
        k = k + 1;
    }
    assert(gas@ =~= gas_keys(kinds@));
    desc_stable_order(&gas)
}

/// Reorder `txs` by gas priority: more estimated gas first, block order among
/// equals (a stable descending sort).
pub fn sort_txs_by_gas_priority(txs: &mut Vec<TxKind>)
    requires
        forall|i: int| 0 <= i < old(txs)@.len() ==> gas_sizes_bounded(#[trigger] old(txs)@[i]),
    ensures
        exists|order: Seq<usize>| is_gas_priority_order(old(txs)@, order)
            && final(txs)@.len() == old(txs)@.len()
            && forall|i: int| 0 <= i < order.len() ==> #[trigger] final(txs)@[i] == old(txs)@[order[i] as int],
{
    let order = gas_priority_order(txs);
    let mut sorted: Vec<TxKind> = Vec::new();
    let mut i: usize = 0;
    while i < order.len()
        invariant
            0 <= i <= order@.len(),
            is_gas_priority_order(txs@, order@),
            sorted@.len() == i,
            forall|j: int| 0 <= j < i ==> #[trigger] sorted@[j] == txs@[order@[j] as int],
        decreases order@.len() - i,
    {
        sorted.push(txs[order[i]]);
        i = i + 1;
    }
    let ghost old_txs = txs@;
    *txs = sorted;
    assert(is_gas_priority_order(old_txs, order@));
}

/// `x` capped at `u64::MAX`.
pub open spec fn capped(x: int) -> int {
    if x > u64::MAX { u64::MAX as int } else { x }
}

/// The serial gas schedule, kind by kind: every fixed-cost kind is charged
/// its own amount, and the sized kinds a base plus a per-unit charge,
/// capped at `u64::MAX`.
pub proof fn law_gas_schedule(tx: TxKind)
    ensures
        spec_estimate_gas(tx) == match tx {
            TxKind::Transfer => 21_000,
            TxKind::CreateObject { data_len } => capped(50_000 + capped(200 * data_len)),
            TxKind::Refresh => 30_000,
            TxKind::DeployContract => 100_000,
            TxKind::CallContract => 40_000,
            TxKind::DeployScript { source_len } => capped(150_000 + capped(200 * source_len)),
            TxKind::CallScript => 50_000,
            TxKind::ValidatorStake => 50_000,
            TxKind::ValidatorExit => 30_000,
            TxKind::ValidatorClaimStake => 30_000,
            TxKind::Shield => 60_000,
            TxKind::Unshield => 80_000,
            TxKind::PrivateTransfer { inputs, outputs } =>
                capped(capped(100_000 + capped(20_000 * inputs)) + capped(15_000 * outputs)),
            TxKind::Deferred { guards } => capped(75_000 + capped(5_000 * guards)),
            TxKind::Blob { data_len } => capped(50_000 + capped(200 * data_len)),
            TxKind::Governance => 25_000,
            TxKind::MultiSig => 50_000,
            TxKind::UserOp { call_data_len } => capped(30_000 + 16 * call_data_len),
            TxKind::UpgradeContract { bytecode_len } => capped(100_000 + 200 * bytecode_len),
            TxKind::Delegate => 40_000,
            TxKind::Undelegate => 40_000,
            TxKind::RotateValidatorKey => 80_000,
            TxKind::ClaimDelegation => 30_000,
            TxKind::Refund => 5_000,
        },
{
}

/// The parallel schedule agrees with the serial one except that script
/// deploys are flat-rate and object, blob and deferred charges are exact
/// (not capped); a refund costs 5 000 in both.
pub proof fn law_parallel_gas_schedule(tx: TxKind)
    ensures
        spec_parallel_estimate_gas(tx) == match tx {
            TxKind::CreateObject { data_len } => 50_000 + 200 * data_len,
            TxKind::Blob { data_len } => 50_000 + 200 * data_len,
            TxKind::Deferred { guards } => 75_000 + 5_000 * guards,
            TxKind::DeployScript { .. } => 150_000,
            _ => spec_estimate_gas(tx),
        },
        spec_parallel_estimate_gas(TxKind::Refund) == 5_000,
{
}

} // verus!
