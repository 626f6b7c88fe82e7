//! Errors of transaction execution.

use vstd::prelude::*;
use crate::governance::GovernanceError;
use crate::temporal::TemporalError;

verus! {

/// Why a contract-level, staking or governance action was refused.
#[derive(Clone, Copy, PartialEq, Eq, Debug)]
pub enum ContractFault {
    /// Delegation to a validator id with no stake record.
    ValidatorHasNoStake { validator_id: u64 },
    /// No delegation from this delegator to this validator id.
    NoDelegation { delegator: [u8; 32], validator_id: u64 },
    /// Undelegating more than is delegated.
    DelegationTooSmall { delegated: u64, requested: u64 },
    /// Nothing is unbonding.
    NothingToClaim,
    /// Unbonding amount without an unbonding epoch.
    UnbondingEpochUnset,
    /// The delegation unbonding period has not elapsed.
    DelegationUnbonding { claimable_at: u64, current: u64 },
    /// The validator is already exiting.
    ValidatorAlreadyExiting,
    /// The validator has not exited.
    ValidatorNotExited,
    /// The validator unbonding period has not elapsed.
    StakeUnbonding { current: u64, unbonding: u64 },
    /// Fewer multisig signatures than the threshold.
    MultisigBelowThreshold { threshold: u8, signatures: usize },
    /// The same signer signed twice.
    MultisigDuplicateSigner,
    /// A signer outside the authorized list.
    MultisigUnauthorizedSigner,
    /// A paymaster without a paymaster nonce.
    MissingPaymasterNonce,
    /// A governance action was refused.
    Governance(GovernanceError),
    /// Upgraded bytecode does not hash to the claimed hash.
    UpgradeHashMismatch { supplied: [u8; 32] },
    /// No contract with this id.
    UpgradeContractNotFound { contract_id: u64 },
    /// An admin signature without the admin public key.
    UpgradeMissingAdminKey,
    /// The contract has no admin (frozen): only governance may upgrade it.
    UpgradeContractFrozen { contract_id: u64 },
    /// The admin public key does not derive the contract's admin address.
    UpgradeAdminKeyMismatch { admin: [u8; 32] },
    /// The admin signature does not verify.
    UpgradeBadAdminSignature,
    /// Endorsing stake below the required stake.
    UpgradeQuorumNotMet { total: u64, required: u64 },
    /// Governance upgrade with a required stake of zero.
    UpgradeZeroQuorum,
    /// Blob with no data.
    EmptyBlob,
    /// Blob larger than the limit.
    BlobTooLarge { size: usize, limit: usize },
    /// Blob in the reserved namespace 0.
    ReservedNamespace,
    /// Key rotation taking effect in the past.
    RotationInPast { effective_epoch: u64, current: u64 },
    /// Rotated BLS public key of the wrong length.
    RotationBadKeyLength { len: usize },
    /// Key rotation for a validator id with no stake record.
    RotationNoStake { validator_id: u64 },
    /// Key rotation from an address other than the staked validator's.
    RotationAddressMismatch { validator_id: u64 },
    /// Key rotation with the wrong nonce.
    RotationNonceMismatch { expected: u64, got: u64 },
    /// The new key's proof of possession does not verify.
    RotationBadProofOfPossession,
    /// A deferred transaction was refused.
    Temporal(TemporalError),
    /// A deployment names no built-in contract template.
    UnknownTemplate,
}

/// Errors that can occur during transaction execution.
#[derive(Clone, Copy, PartialEq, Eq, Debug)]
pub enum ExecutionError {
    /// `account` has `available`, needs `required`.
    InsufficientBalance { account: [u8; 32], available: u64, required: u64 },
    InvalidNonce { expected: u64, got: u64 },
    ObjectAlreadyExists([u8; 32]),
    /// No stake record for this validator.
    StakeNotFound { validator_id: u64 },
    SelfTransfer,
    ZeroAmount,
    InvalidSignature,
    MissingSignature,
    /// `account` cannot cover `required` of gas fees.
    InsufficientGas { account: [u8; 32], available: u64, required: u64 },
    ContractError(ContractFault),
    BlockGasLimitExceeded { used: u64, limit: u64 },
    CallDepthExceeded(usize),
}

} // verus!
