//! The per-transaction bookkeeping of block execution.
//!
//! A block is executed transaction by transaction. For each one the
//! executor first asks [`BlockRun::begin_tx`] whether it may run at all
//! (signature verdict, gas bound, up-front fee), then performs the
//! transaction against the state store, then hands the result to
//! [`BlockRun::finish_tx`], which commits or reverts the sender and records the
//! outcome. Fees are burned whether or not the transaction commits; only
//! committed transactions count towards the block's gas.

use vstd::prelude::*;
use crate::errors::{ExecutionError, ContractFault};
use crate::ledger::{Account, sat_add};
use crate::hashing::bytes32_eq;
use crate::text::{bytes_eq, text};
use crate::temporal::copy_bytes;

verus! {

/// Why a transaction did not commit.
#[derive(Clone, Copy, PartialEq, Eq, Debug)]
pub enum TxFailure {
    /// Signature verification refused the transaction.
    Signature(ExecutionError),
    /// Admitting the transaction would push the block past its gas limit
    /// (`used` is the block's gas so far).
    BlockGasLimit { used: u64, tx_gas: u64, limit: u64 },
    /// The partition's share of the block gas is spent.
    GasBudgetExhausted,
    /// The sender cannot pay the up-front fee.
    InsufficientGasBalance { available: u64, required: u64 },
    /// The transaction ran and failed; its effects were reverted.
    Execution(ExecutionError),
}

/// What became of one transaction of a block.
#[derive(Clone, Copy, Debug)]
pub struct TxOutcome {
    pub tx_hash: [u8; 32],
    /// The transaction's effect committed.
    pub success: bool,
    /// Why it did not commit; `None` on success.
    pub error: Option<TxFailure>,
    /// Gas accounted to the transaction: its estimate once it ran (whether
    /// or not it committed), zero when it never ran.
    pub gas_used: u64,
}

/// How the block's gas is bounded.
#[derive(Clone, Copy, PartialEq, Eq, Debug)]
pub enum GasBound {
    /// The serial executor's block gas limit; zero means unlimited.
    Limit(u64),
    /// A partition's share of the block gas in the parallel executor.
    Budget(u64),
}

/// Gas of the committed outcomes.
pub open spec fn committed_gas(outcomes: Seq<TxOutcome>) -> int
    decreases outcomes.len(),
{
    if outcomes.len() == 0 {
        0
    } else {
        committed_gas(outcomes.drop_last()) + if outcomes.last().success { outcomes.last().gas_used as int } else { 0 }
    }
}

/// `used` gas respects the gas bound.
pub open spec fn within_bound(bound: GasBound, used: int) -> bool {
    match bound {
        GasBound::Limit(limit) => limit == 0 || used <= limit,
        GasBound::Budget(allowance) => used <= allowance,
    }
}

/// A transaction of `tx_gas` may run after `used` gas.
pub open spec fn bound_has_room(bound: GasBound, used: u64, tx_gas: u64) -> bool {
    within_bound(bound, used + tx_gas)
}

/// The failure recorded when the gas bound refuses a transaction.
pub open spec fn bound_failure(bound: GasBound, used: u64, tx_gas: u64) -> TxFailure {
    match bound {
        GasBound::Limit(limit) => TxFailure::BlockGasLimit { used, tx_gas, limit },
        GasBound::Budget(_) => TxFailure::GasBudgetExhausted,
    }
}

/// Whether the gas bound accepts a transaction of `tx_gas` after `used` gas. The
/// limit check does not wrap: a sum past `u64::MAX` exceeds every limit.
pub fn bound_allows(bound: GasBound, used: u64, tx_gas: u64) -> (r: bool)
    requires
        within_bound(bound, used as int),
    ensures
        r == bound_has_room(bound, used, tx_gas),
{
    match bound {
        GasBound::Limit(limit) => {
            let exceeds = match used.checked_add(tx_gas) {
                Some(total) => total > limit,
                None => true,
            };
            !(limit > 0 && exceeds)
        },
        GasBound::Budget(allowance) => {
            let remaining = allowance - used;
            remaining >= tx_gas
        },
    }
}

/// A transaction that passed admission, with what settling it needs.
#[derive(Clone, Copy, Debug)]
pub struct Admitted {
    pub tx_hash: [u8; 32],
    pub tx_gas: u64,
    /// Fee already taken from the sender.
    pub tx_fee: u64,
    /// Sender balance and nonce after the fee, restored if the transaction fails.
    pub snapshot: Option<(u64, u64)>,
}

/// Running totals of a block (or of one partition of it).
pub struct BlockRun {
    pub txs_executed: usize,
    pub txs_failed: usize,
    pub gas_used: u64,
    pub total_fees: u64,
    pub bound: GasBound,
    /// One outcome per transaction seen, in the order seen.
    pub outcomes: Vec<TxOutcome>,
}

/// `after` is `before` with one more transaction refused before running.
pub open spec fn refused(before: BlockRun, after: BlockRun, tx_hash: [u8; 32], why: TxFailure) -> bool {
    &&& after.outcomes@ == before.outcomes@.push(TxOutcome { tx_hash, success: false, error: Some(why), gas_used: 0 })
    &&& after.txs_failed == before.txs_failed + 1
    &&& after.txs_executed == before.txs_executed
    &&& after.gas_used == before.gas_used
    &&& after.total_fees == before.total_fees
    &&& after.bound == before.bound
}

/// Why a transaction is refused before it runs, if it is, in the order the conditions are tried.
pub open spec fn admission_refusal(
    bound: GasBound,
    used: u64,
    signature: Result<(), ExecutionError>,
    tx_gas: u64,
    fee: Option<u64>,
    sender: Option<Account>,
) -> Option<TxFailure> {
    match signature {
        Err(e) => Some(TxFailure::Signature(e)),
        Ok(()) => if !bound_has_room(bound, used, tx_gas) {
            Some(bound_failure(bound, used, tx_gas))
        } else {
            match (fee, sender) {
                (Some(f), Some(a)) => if a.balance < f {
                    Some(TxFailure::InsufficientGasBalance { available: a.balance, required: f })
                } else {
                    None
                },
                _ => None,
            }
        },
    }
}

/// The sender after the up-front fee.
pub open spec fn after_fee(fee: Option<u64>, sender: Option<Account>, epoch: u64) -> Option<Account> {
    match (fee, sender) {
        (Some(f), Some(a)) => Some(Account { balance: (a.balance - f) as u64, last_touched_epoch: epoch, ..a }),
        _ => sender,
    }
}

impl BlockRun {
    /// Totals are consistent with the outcomes, and the gas bound holds.
    pub open spec fn wf(self) -> bool {
        &&& self.outcomes@.len() == self.txs_executed + self.txs_failed
        &&& self.gas_used == committed_gas(self.outcomes@)
        &&& within_bound(self.bound, self.gas_used as int)
    }

    /// Nothing seen yet.
    pub fn new(bound: GasBound) -> (run: BlockRun)
        ensures
            run.wf(),
            run.bound == bound,
            run.txs_executed == 0,
            run.txs_failed == 0,
            run.gas_used == 0,
            run.total_fees == 0,
            run.outcomes@.len() == 0,
    {
        BlockRun { txs_executed: 0, txs_failed: 0, gas_used: 0, total_fees: 0, bound, outcomes: Vec::new() }
    }

    fn refuse(&mut self, tx_hash: [u8; 32], why: TxFailure)
        requires
            old(self).wf(),
            old(self).txs_failed < usize::MAX,
        ensures
            final(self).wf(),
            refused(*old(self), *final(self), tx_hash, why),
    {
        let outcome = TxOutcome { tx_hash, success: false, error: Some(why), gas_used: 0 };
        let ghost before = self.outcomes@;
        self.outcomes.push(outcome);
        self.txs_failed = self.txs_failed + 1;
        assert(self.outcomes@.drop_last() =~= before);
    }

    /// Decide whether a transaction runs.
    ///
    /// It is refused, in this order: when `signature` (the verifier's
    /// verdict) is an error; when the gas bound does not accept `tx_gas` more gas;
    /// when a fee is charged (`fee` is `Some`) and the sender's balance is
    /// below it. A refusal records a failed outcome with no gas. Otherwise
    /// the fee is taken from the sender (moving its demurrage anchor to
    /// `epoch`), and the admitted transaction carries the sender's balance
    /// and nonce after the fee.
    ///
    /// `sender` is the sender's account as the store holds it (created by the
    /// fee charge when fees are on), `None` for a transaction without one.
    pub fn begin_tx(
        &mut self,
        tx_hash: [u8; 32],
        signature: Result<(), ExecutionError>,
        tx_gas: u64,
        fee: Option<u64>,
        sender: &mut Option<Account>,
        epoch: u64,
    ) -> (r: Option<Admitted>)
        requires
            old(self).wf(),
            old(self).txs_failed < usize::MAX,
        ensures
            final(self).wf(),
            ({
                let refusal = admission_refusal(old(self).bound, old(self).gas_used, signature, tx_gas, fee, *old(sender));
                match refusal {
                    Some(why) => r.is_none() && *final(sender) == *old(sender)
                        && refused(*old(self), *final(self), tx_hash, why),
                    None => {
                        let charged = after_fee(fee, *old(sender), epoch);
                        &&& *final(sender) == charged
                        &&& r == Some(Admitted {
                            tx_hash,
                            tx_gas,
                            tx_fee: match fee { Some(f) => f, None => 0 },
                            snapshot: match charged { Some(a) => Some((a.balance, a.nonce)), None => None },
                        })
                        &&& final(self).outcomes@ == old(self).outcomes@
                        &&& final(self).txs_executed == old(self).txs_executed
                        &&& final(self).txs_failed == old(self).txs_failed
                        &&& final(self).gas_used == old(self).gas_used
                        &&& final(self).total_fees == old(self).total_fees
                        &&& final(self).bound == old(self).bound
                        &&& bound_has_room(old(self).bound, old(self).gas_used, tx_gas)
                    },
                }
            }),
    {
        if let Err(e) = signature {
            self.refuse(tx_hash, TxFailure::Signature(e));
            return None;
        }
        if !bound_allows(self.bound, self.gas_used, tx_gas) {
            let why = match self.bound {
                GasBound::Limit(limit) => TxFailure::BlockGasLimit { used: self.gas_used, tx_gas, limit },
                GasBound::Budget(_) => TxFailure::GasBudgetExhausted,
            };
            self.refuse(tx_hash, why);
            return None;
        }
        let tx_fee = match fee {
            Some(f) => f,
            None => 0,
        };
        if let Some(f) = fee {
            if let Some(acct) = sender {
                if acct.balance < f {
                    let why = TxFailure::InsufficientGasBalance { available: acct.balance, required: f };
                    self.refuse(tx_hash, why);
                    return None;
                }
                acct.balance = acct.balance - f;
                acct.last_touched_epoch = epoch;
            }
        }
        let snapshot = match sender {
            Some(acct) => Some((acct.balance, acct.nonce)),
            None => None,
        };
        Some(Admitted { tx_hash, tx_gas, tx_fee, snapshot })
    }

    /// Record the result of an admitted transaction.
    ///
    /// On success the transaction's gas and fee are added and a successful
    /// outcome recorded. On failure the sender's balance and nonce are put
    /// back to the admission snapshot (the fee stays burned), the fee is
    /// still added, and a failed outcome carrying the transaction's gas is
    /// recorded; the block's gas does not grow.
    ///
    /// `sender` is the sender's account as the transaction left it.
    pub fn finish_tx(&mut self, adm: Admitted, result: Result<(), ExecutionError>, sender: &mut Option<Account>)
        requires
            old(self).wf(),
            bound_has_room(old(self).bound, old(self).gas_used, adm.tx_gas),
            old(self).gas_used + adm.tx_gas <= u64::MAX,
            old(self).total_fees + adm.tx_fee <= u64::MAX,
            old(self).txs_executed < usize::MAX,
            old(self).txs_failed < usize::MAX,
        ensures
            final(self).wf(),
            final(self).bound == old(self).bound,
            final(self).total_fees == old(self).total_fees + adm.tx_fee,
            result is Ok ==> {
                &&& final(self).outcomes@ == old(self).outcomes@.push(
                    TxOutcome { tx_hash: adm.tx_hash, success: true, error: None, gas_used: adm.tx_gas })
                &&& final(self).txs_executed == old(self).txs_executed + 1
                &&& final(self).txs_failed == old(self).txs_failed
                &&& final(self).gas_used == old(self).gas_used + adm.tx_gas
                &&& *final(sender) == *old(sender)
            },
            result matches Err(e) ==> {
                &&& final(self).outcomes@ == old(self).outcomes@.push(
                    TxOutcome { tx_hash: adm.tx_hash, success: false, error: Some(TxFailure::Execution(e)), gas_used: adm.tx_gas })
                &&& final(self).txs_executed == old(self).txs_executed
                &&& final(self).txs_failed == old(self).txs_failed + 1
                &&& final(self).gas_used == old(self).gas_used
                &&& *final(sender) == match (*old(sender), adm.snapshot) {
                    (Some(a), Some((balance, nonce))) => Some(Account { balance, nonce, ..a }),
                    _ => *old(sender),
                }
            },
    {
        let ghost before = self.outcomes@;
        match result {
            Ok(()) => {
                self.outcomes.push(TxOutcome { tx_hash: adm.tx_hash, success: true, error: None, gas_used: adm.tx_gas });
                self.txs_executed = self.txs_executed + 1;
                self.gas_used = self.gas_used + adm.tx_gas;
            },
            Err(e) => {
                if let Some(acct) = sender {
                    if let Some((balance, nonce)) = adm.snapshot {
                        acct.balance = balance;
                        acct.nonce = nonce;
                    }
                }
                self.outcomes.push(TxOutcome {
                    tx_hash: adm.tx_hash,
                    success: false,
                    error: Some(TxFailure::Execution(e)),
                    gas_used: adm.tx_gas,
                });
                self.txs_failed = self.txs_failed + 1;
            },
        }
        self.total_fees = self.total_fees + adm.tx_fee;
        assert(self.outcomes@.drop_last() =~= before);
    }
}

/// Gas accounting of a block: at every point of a run the gas used is the
/// gas of the committed transactions, it never passes a non-zero block limit
/// (nor a partition's budget), and a transaction that the bound refuses is
/// recorded as failed with no gas and adds none.
pub proof fn law_block_gas_accounting(run: BlockRun, after: BlockRun, tx_hash: [u8; 32], tx_gas: u64)
    requires
        run.wf(),
        refused(run, after, tx_hash, bound_failure(run.bound, run.gas_used, tx_gas)),
    ensures
        run.gas_used == committed_gas(run.outcomes@),
        run.bound matches GasBound::Limit(limit) ==> (limit > 0 ==> run.gas_used <= limit),
        run.bound matches GasBound::Budget(allowance) ==> run.gas_used <= allowance,
        after.outcomes@.last().success == false,
        after.outcomes@.last().gas_used == 0,
        after.gas_used == run.gas_used,
        after.wf(),
{
    let o = after.outcomes@;
    assert(o.drop_last() =~= run.outcomes@);
}

/// The gas bound admits a transaction exactly when the gas used so far plus
/// the transaction's gas stays within it: a block limit of zero admits
/// everything, a positive limit or a partition budget admits up to and
/// including its value.
pub proof fn law_gas_bound_room(limit: u64, allowance: u64, used: u64, tx_gas: u64)
    ensures
        bound_has_room(GasBound::Limit(0), used, tx_gas),
        limit > 0 ==> (bound_has_room(GasBound::Limit(limit), used, tx_gas) <==> used + tx_gas <= limit),
        bound_has_room(GasBound::Budget(allowance), used, tx_gas) <==> used + tx_gas <= allowance,
{
}

/// Admission, condition by condition: a bad signature is refused first;
/// then a transaction the gas bound has no room for; then a sender whose
/// balance is below the up-front fee. A sender that can pay is charged
/// exactly the fee, its demurrage anchor moved, and nothing else changes.
pub proof fn law_admission_order(bound: GasBound, used: u64, signature: Result<(), ExecutionError>, tx_gas: u64, f: u64, a: Account, epoch: u64)
    ensures
        signature is Err ==> admission_refusal(bound, used, signature, tx_gas, Some(f), Some(a)) == Some(TxFailure::Signature(signature->Err_0)),
        signature is Ok && !bound_has_room(bound, used, tx_gas) ==>
            admission_refusal(bound, used, signature, tx_gas, Some(f), Some(a)) == Some(bound_failure(bound, used, tx_gas)),
        signature is Ok && bound_has_room(bound, used, tx_gas) ==>
            (admission_refusal(bound, used, signature, tx_gas, Some(f), Some(a)) is None <==> a.balance >= f),
        a.balance >= f ==> after_fee(Some(f), Some(a), epoch) == Some(Account {
            balance: (a.balance - f) as u64,
            last_touched_epoch: epoch,
            ..a
        }),
        a.balance >= f ==> after_fee(Some(f), Some(a), epoch).unwrap().balance + f == a.balance,
{
}

/// Blocks of state snapshots kept behind the tip.
pub const SNAPSHOT_RETAIN_BLOCKS: u64 = 256;
/// Staker rewards are paid out every this many blocks.
pub const STAKER_REWARD_INTERVAL_BLOCKS: u64 = 100;
/// Largest blob payload in bytes.
pub const MAX_BLOB_SIZE: usize = 131_072;
/// Epochs after a key rotation takes effect during which the old key is still honoured.
pub const KEY_ROTATION_GRACE_EPOCHS: u64 = 8;
/// Length of a BLS public key in bytes.
pub const BLS_PUBLIC_KEY_BYTES: usize = 48;

/// Check a data-availability blob: non-empty, at most `MAX_BLOB_SIZE`
/// bytes, outside the reserved namespace 0.
pub fn check_blob(data: &[u8], namespace_id: u64) -> (r: Result<(), ExecutionError>)
    ensures
        r == if data@.len() == 0 {
            Err(ExecutionError::ContractError(ContractFault::EmptyBlob))
        } else if data@.len() > MAX_BLOB_SIZE {
            Err(ExecutionError::ContractError(ContractFault::BlobTooLarge { size: data@.len() as usize, limit: MAX_BLOB_SIZE }))
        } else if namespace_id == 0 {
            Err(ExecutionError::ContractError(ContractFault::ReservedNamespace))
        } else {
            Ok(())
        },
{
    if data.len() == 0 {
        Err(ExecutionError::ContractError(ContractFault::EmptyBlob))
    } else if data.len() > MAX_BLOB_SIZE {
        Err(ExecutionError::ContractError(ContractFault::BlobTooLarge { size: data.len(), limit: MAX_BLOB_SIZE }))
    } else if namespace_id == 0 {
        Err(ExecutionError::ContractError(ContractFault::ReservedNamespace))
    } else {
        Ok(())
    }
}

/// A request to rotate a validator's BLS key.
pub struct RotateKeyTx {
    pub validator_id: u64,
    pub validator_address: [u8; 32],
    pub new_bls_public_key: Vec<u8>,
    /// Continuity proof by the old key over the new key.
    pub bls_pop_old: Vec<u8>,
    /// Proof of possession of the new key.
    pub bls_pop_new: Vec<u8>,
    pub effective_epoch: u64,
    pub nonce: u64,
}

/// A committed key rotation, applied by consensus after the block commits.
pub struct ValidatorKeyRotation {
    pub validator_id: u64,
    pub new_bls_public_key: Vec<u8>,
    pub bls_pop_old: Vec<u8>,
    pub new_bls_pop: Vec<u8>,
    /// Last epoch at which the previous key is still accepted.
    pub prev_key_expiry_epoch: u64,
}

/// Why a key rotation is refused, in the order the checks run; `None` when
/// it is accepted. `staked` is the address on the validator's stake record,
/// `nonce_now` the validator account's nonce (zero without an account), and
/// `pop_new_valid` the BLS verifier's verdict on the new key's proof of
/// possession.
pub open spec fn rotation_refusal(
    effective_epoch: u64,
    key_len: nat,
    validator_id: u64,
    address: Seq<u8>,
    nonce: u64,
    block_epoch: u64,
    staked: Option<[u8; 32]>,
    nonce_now: u64,
    pop_new_valid: bool,
) -> Option<ContractFault> {
    if effective_epoch < block_epoch {
        Some(ContractFault::RotationInPast { effective_epoch, current: block_epoch })
    } else if key_len != BLS_PUBLIC_KEY_BYTES {
        Some(ContractFault::RotationBadKeyLength { len: key_len as usize })
    } else {
        match staked {
            None => Some(ContractFault::RotationNoStake { validator_id }),
            Some(a) => if a@ != address {
                Some(ContractFault::RotationAddressMismatch { validator_id })
            } else if nonce != nonce_now {
                Some(ContractFault::RotationNonceMismatch { expected: nonce_now, got: nonce })
            } else if !pop_new_valid {
                Some(ContractFault::RotationBadProofOfPossession)
            } else {
                None
            },
        }
    }
}

/// Execute a validator key rotation.
///
/// Refused (see [`rotation_refusal`]) when it takes effect before
/// `block_epoch`, when the new key is not `BLS_PUBLIC_KEY_BYTES` long, when
/// the validator id has no stake record (`staked_address` is `None`) or one
/// at another address, when the nonce is not the validator account's (zero
/// without an account), or when the new key's proof of possession does not
/// verify (`pop_new_valid`). On success the validator account's nonce is
/// bumped (saturating) and its demurrage anchor moved to `block_epoch`, and
/// the rotation is returned with the old key honoured until
/// `KEY_ROTATION_GRACE_EPOCHS` after it takes effect (saturating).
pub fn rotate_validator_key(
    rot: &RotateKeyTx,
    block_epoch: u64,
    staked_address: Option<[u8; 32]>,
    account: &mut Option<Account>,
    pop_new_valid: bool,
) -> (r: Result<ValidatorKeyRotation, ExecutionError>)
    ensures
        ({
            let nonce_now = match *old(account) { Some(a) => a.nonce, None => 0 };
            match rotation_refusal(rot.effective_epoch, rot.new_bls_public_key@.len(), rot.validator_id,
                rot.validator_address@, rot.nonce, block_epoch, staked_address, nonce_now, pop_new_valid) {
                Some(fault) => r == Err::<ValidatorKeyRotation, ExecutionError>(ExecutionError::ContractError(fault))
                    && *final(account) == *old(account),
                None => {
                    &&& r is Ok
                    &&& r->Ok_0.validator_id == rot.validator_id
                    &&& r->Ok_0.new_bls_public_key@ == rot.new_bls_public_key@
                    &&& r->Ok_0.bls_pop_old@ == rot.bls_pop_old@
                    &&& r->Ok_0.new_bls_pop@ == rot.bls_pop_new@
                    &&& r->Ok_0.prev_key_expiry_epoch == sat_add(rot.effective_epoch, KEY_ROTATION_GRACE_EPOCHS)
                    &&& *final(account) == match *old(account) {
                        Some(a) => Some(Account { nonce: sat_add(a.nonce, 1), last_touched_epoch: block_epoch, ..a }),
                        None => None::<Account>,
                    }
                },
            }
        }),
{
    if rot.effective_epoch < block_epoch {
        return Err(ExecutionError::ContractError(
            ContractFault::RotationInPast { effective_epoch: rot.effective_epoch, current: block_epoch }));
    }
    if rot.new_bls_public_key.len() != BLS_PUBLIC_KEY_BYTES {
        return Err(ExecutionError::ContractError(
            ContractFault::RotationBadKeyLength { len: rot.new_bls_public_key.len() }));
    }
    let staked = match staked_address {
        None => {
            return Err(ExecutionError::ContractError(
                ContractFault::RotationNoStake { validator_id: rot.validator_id }));
        },
        Some(a) => a,
    };
    if !bytes32_eq(&staked, &rot.validator_address) {
        return Err(ExecutionError::ContractError(
            ContractFault::RotationAddressMismatch { validator_id: rot.validator_id }));
    }
    let nonce_now = match account {
        Some(a) => a.nonce,
        None => 0,
    };
    if rot.nonce != nonce_now {
        return Err(ExecutionError::ContractError(
            ContractFault::RotationNonceMismatch { expected: nonce_now, got: rot.nonce }));
    }
    if !pop_new_valid {
        return Err(ExecutionError::ContractError(ContractFault::RotationBadProofOfPossession));
    }
    if let Some(a) = account {
        a.nonce = a.nonce.saturating_add(1);
        a.last_touched_epoch = block_epoch;
    }
    Ok(ValidatorKeyRotation {
        validator_id: rot.validator_id,
        new_bls_public_key: copy_bytes(&rot.new_bls_public_key),
        bls_pop_old: copy_bytes(&rot.bls_pop_old),
        new_bls_pop: copy_bytes(&rot.bls_pop_new),
        prev_key_expiry_epoch: rot.effective_epoch.saturating_add(KEY_ROTATION_GRACE_EPOCHS),
    })
}

/// Apply the conservation-enforcement policy to the block's audit verdict.
///
/// A clean audit is stored and the block commits (`Ok(Ok(()))`) under
/// either policy. A violation is stored and the block still commits
/// (`Ok(Err(v))`) when the policy only observes; when it enforces, the
/// block is rejected with the violation (`Err(v)`).
pub fn evaluate_conservation_gate<V>(audit_verdict: Result<(), V>, must_enforce: bool) -> (r: Result<Result<(), V>, V>)
    ensures
        match audit_verdict {
            Ok(()) => r == Ok::<Result<(), V>, V>(Ok(())),
            Err(v) => if must_enforce { r == Err::<Result<(), V>, V>(v) } else { r == Ok::<Result<(), V>, V>(Err(v)) },
        },
{
    match audit_verdict {
        Ok(()) => Ok(Ok(())),
        Err(violation) => if must_enforce { Err(violation) } else { Ok(Err(violation)) },
    }
}

/// The governance value that switches conservation enforcement on.
pub open spec fn enforce_word() -> Seq<u8> {
    seq![101u8, 110, 102, 111, 114, 99, 101]
}

/// Whether the `conservation_enforcement` governance parameter (if set)
/// asks for enforcement: exactly the value `enforce`.
pub fn enforcement_requested(param: Option<&str>) -> (r: bool)
    ensures
        r == match param { Some(v) => text(v) == enforce_word(), None => false },
{
    match param {
        None => false,
        Some(v) => {
            let word = "enforce";
            proof { reveal_strlit("enforce"); }
            assert(vstd::string::is_ascii(word));
            let w = word.as_bytes();
            assert(w@ =~= enforce_word());
            bytes_eq(v.as_bytes(), w)
        },
    }
}

/// What the executor does once a block's transactions have run.
#[derive(Clone, Copy, PartialEq, Eq, Debug)]
pub struct EndOfBlock {
    /// Pay out the accumulated staker rewards.
    pub distribute_staker_rewards: bool,
    /// Collect storage rent and demurrage (once per epoch).
    pub collect_rent: bool,
    /// Drop state snapshots below this height.
    pub prune_snapshots_before: Option<u64>,
}

/// Plan the end of block `block_number` in `block_epoch`: staker rewards
/// every `STAKER_REWARD_INTERVAL_BLOCKS` blocks when some are pending; rent
/// when the epoch is past the last rent epoch; snapshot pruning beyond the
/// `SNAPSHOT_RETAIN_BLOCKS` most recent heights.
pub fn plan_end_of_block(block_number: u64, block_epoch: u64, last_rent_epoch: u64, pending_staker_rewards: u64)
    -> (plan: EndOfBlock)
    ensures
        plan.distribute_staker_rewards == (block_number % STAKER_REWARD_INTERVAL_BLOCKS == 0 && pending_staker_rewards > 0),
        plan.collect_rent == (block_epoch > last_rent_epoch),
        plan.prune_snapshots_before == if block_number > SNAPSHOT_RETAIN_BLOCKS {
            Some((block_number - SNAPSHOT_RETAIN_BLOCKS) as u64)
        } else {
            None
        },
{
    EndOfBlock {
        distribute_staker_rewards: block_number % STAKER_REWARD_INTERVAL_BLOCKS == 0 && pending_staker_rewards > 0,
        collect_rent: block_epoch > last_rent_epoch,
        prune_snapshots_before: if block_number > SNAPSHOT_RETAIN_BLOCKS {
            Some(block_number - SNAPSHOT_RETAIN_BLOCKS)
        } else {
            None
        },
    }
}

/// Byte `i` of the little-endian encoding of `v`.
pub open spec fn le_byte(v: u64, i: int) -> u8 {
    ((v >> ((8 * i) as u64)) & 0xff) as u8
}

/// The address rewards are paid to: the stake address of the producing
/// validator; without a stake record, its id in little-endian in the first
/// eight bytes and zeros after; the zero address for a block without a
/// producer.
pub fn producer_address(producer_id: Option<u64>, staked_address: Option<[u8; 32]>) -> (addr: [u8; 32])
    ensures
        match producer_id {
            None => forall|i: int| 0 <= i < 32 ==> addr@[i] == 0,
            Some(pid) => match staked_address {
                Some(a) => addr == a,
                None => forall|i: int| 0 <= i < 32 ==> addr@[i] == if i < 8 { le_byte(pid, i) } else { 0 },
            },
        },
{
    let mut addr = [0u8; 32];
    match producer_id {
        None => addr,
        Some(pid) => match staked_address {
            Some(a) => a,
            None => {
                let mut i: usize = 0;
                while i < 8
                    invariant
                        0 <= i <= 8,
                        forall|j: int| 0 <= j < i ==> addr@[j] == le_byte(pid, j),
                        forall|j: int| i <= j < 32 ==> addr@[j] == 0,
                    decreases 8 - i,
                {
                    addr[i] = ((pid >> (8 * i as u64)) & 0xff) as u8;
                    i = i + 1;
                }
                addr
            },
        },
    }
}

/// Credit an expired deferred transaction's deposit back to its submitter
/// (saturating), moving the demurrage anchor to `epoch`.
pub fn credit_deferred_refund(acct: &mut Account, refund: u64, epoch: u64)
    ensures
        *final(acct) == (Account { balance: sat_add(old(acct).balance, refund), last_touched_epoch: epoch, ..*old(acct) }),
{
    acct.balance = acct.balance.saturating_add(refund);
    acct.last_touched_epoch = epoch;
}

/// The block's MERA commitment: the tree root, or `None` when the root is
/// all zeros (no state to commit to).
pub fn mera_commitment(root: [u8; 32]) -> (r: Option<[u8; 32]>)
    ensures
        r == if forall|i: int| 0 <= i < 32 ==> root@[i] == 0 { None } else { Some(root) },
{
    let zero = [0u8; 32];
    if bytes32_eq(&root, &zero) {
        assert forall|i: int| 0 <= i < 32 implies root@[i] == 0 by {
            assert(root@[i] == zero@[i]);
        }
        None
    } else {
        proof {
            if forall|i: int| 0 <= i < 32 ==> root@[i] == 0 {
                assert(root@ =~= zero@);
            }
        }
        Some(root)
    }
}

/// The signature verdict on a transaction.
///
/// With verification off, or for a zero-knowledge-authenticated
/// transaction (unshield, private transfer), nothing is checked. Otherwise
/// a missing signature or public key is refused (`MissingSignature`), and
/// `verified` (the signature scheme's verdict on the transaction's signing
/// message) decides between acceptance and `InvalidSignature`.
pub fn check_tx_signature(
    verification_on: bool,
    zk_authenticated: bool,
    has_signature: bool,
    has_public_key: bool,
    verified: bool,
) -> (r: Result<(), ExecutionError>)
    ensures
        r == if !verification_on || zk_authenticated {
            Ok(())
        } else if !has_signature || !has_public_key {
            Err(ExecutionError::MissingSignature)
        } else if !verified {
            Err(ExecutionError::InvalidSignature)
        } else {
            Ok(())
        },
{
    if !verification_on || zk_authenticated {
        return Ok(());
    }
    if !has_signature || !has_public_key {
        return Err(ExecutionError::MissingSignature);
    }
    if !verified {
        return Err(ExecutionError::InvalidSignature);
    }
    Ok(())
}

} // verus!
