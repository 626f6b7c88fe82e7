//! Account-abstraction and administration transactions: multisig
//! authorization, sponsored user operations, contract upgrades, storage
//! rent, and the governed block gas limit.

use vstd::prelude::*;
use crate::errors::{ExecutionError, ContractFault};
use crate::ledger::{Account, sat_add, sat_sub};
use crate::hashing::{blake3_digest, blake3_hash, bytes32_eq};
use crate::rewards::{sat_fold, total, lemma_sat_fold};
use crate::text::{ascii, parse_u64, u64_text, text};

verus! {

/// Gas charged for a user operation on top of its call gas limit.
pub const GAS_USER_OP: u64 = 30_000;

/// A transaction authorized by several signers of a multisig account.
pub struct MultiSigTx {
    pub multisig_address: [u8; 32],
    /// The authorized signers.
    pub signers: Vec<[u8; 32]>,
    /// Signatures needed.
    pub threshold: u8,
    /// The signer of each attached signature, in order.
    pub signature_signers: Vec<[u8; 32]>,
    pub nonce: u64,
}

/// Signature `j` repeats a signer of an earlier signature.
pub open spec fn signer_repeats(sigs: Seq<[u8; 32]>, j: int) -> bool {
    exists|i: int| 0 <= i < j && #[trigger] sigs[i]@ == sigs[j]@
}

/// `who` is among the authorized signers.
pub open spec fn authorized(signers: Seq<[u8; 32]>, who: [u8; 32]) -> bool {
    exists|i: int| 0 <= i < signers.len() && #[trigger] signers[i]@ == who@
}

/// The first signature at or after `j` that repeats a signer or comes from
/// outside the list, with the fault it meets first.
pub open spec fn first_bad_signature(signers: Seq<[u8; 32]>, sigs: Seq<[u8; 32]>, j: int) -> Option<ContractFault>
    decreases sigs.len() - j,
{
    if j < 0 || j >= sigs.len() {
        None
    } else if signer_repeats(sigs, j) {
        Some(ContractFault::MultisigDuplicateSigner)
    } else if !authorized(signers, sigs[j]) {
        Some(ContractFault::MultisigUnauthorizedSigner)
    } else {
        first_bad_signature(signers, sigs, j + 1)
    }
}

fn is_authorized(signers: &Vec<[u8; 32]>, who: &[u8; 32]) -> (r: bool)
    ensures
        r == authorized(signers@, *who),
{
    let mut i: usize = 0;
    while i < signers.len()
        invariant
            0 <= i <= signers@.len(),
            forall|k: int| 0 <= k < i ==> signers@[k]@ != who@,
        decreases signers@.len() - i,
    {
        if bytes32_eq(&signers[i], who) {
            return true;
        }
        i = i + 1;
    }
    false
}

fn check_signatures(signers: &Vec<[u8; 32]>, sigs: &Vec<[u8; 32]>) -> (r: Option<ContractFault>)
    ensures
        r == first_bad_signature(signers@, sigs@, 0),
{
    let mut j: usize = 0;
    while j < sigs.len()
        invariant
            0 <= j <= sigs@.len(),
            first_bad_signature(signers@, sigs@, 0) == first_bad_signature(signers@, sigs@, j as int),
        decreases sigs@.len() - j,
    {
        let mut i: usize = 0;
        while i < j
            invariant
                0 <= i <= j < sigs@.len(),
                first_bad_signature(signers@, sigs@, 0) == first_bad_signature(signers@, sigs@, j as int),
                forall|k: int| 0 <= k < i ==> sigs@[k]@ != sigs@[j as int]@,
            decreases j - i,
        {
            if bytes32_eq(&sigs[i], &sigs[j]) {
                assert(signer_repeats(sigs@, j as int));
                return Some(ContractFault::MultisigDuplicateSigner);
            }
            i = i + 1;
        }
        if !is_authorized(signers, &sigs[j]) {
            return Some(ContractFault::MultisigUnauthorizedSigner);
        }
        j = j + 1;
    }
    None
}

/// Execute a multisig transaction against the multisig account.
///
/// Refused when fewer signatures than the threshold are attached (the count
/// taken modulo 256, as a `u8`); then at the first signature whose signer
/// already signed (duplicate) or is not authorized; then for a nonce other
/// than the account's. On success the nonce is bumped and the demurrage
/// anchor moved to `epoch`.
pub fn execute_multisig(acct: &mut Account, tx: &MultiSigTx, epoch: u64) -> (r: Result<(), ExecutionError>)
    requires
        old(acct).nonce == tx.nonce ==> old(acct).nonce < u64::MAX,
    ensures
        ({
            let count = tx.signature_signers@.len() as u8;
            if count < tx.threshold {
                r == Err::<(), ExecutionError>(ExecutionError::ContractError(ContractFault::MultisigBelowThreshold {
                    threshold: tx.threshold,
                    signatures: tx.signature_signers@.len() as usize,
                })) && *final(acct) == *old(acct)
            } else if first_bad_signature(tx.signers@, tx.signature_signers@, 0).is_some() {
                r == Err::<(), ExecutionError>(ExecutionError::ContractError(
                    first_bad_signature(tx.signers@, tx.signature_signers@, 0)->Some_0)) && *final(acct) == *old(acct)
            } else if old(acct).nonce != tx.nonce {
                r == Err::<(), ExecutionError>(ExecutionError::InvalidNonce { expected: old(acct).nonce, got: tx.nonce })
                    && *final(acct) == *old(acct)
            } else {
                r == Ok::<(), ExecutionError>(())
                    && *final(acct) == (Account { nonce: (old(acct).nonce + 1) as u64, last_touched_epoch: epoch, ..*old(acct) })
            }
        }),
{
    let count = tx.signature_signers.len() as u8;
    if count < tx.threshold {
        return Err(ExecutionError::ContractError(ContractFault::MultisigBelowThreshold {
            threshold: tx.threshold,
            signatures: tx.signature_signers.len(),
        }));
    }
    if let Some(fault) = check_signatures(&tx.signers, &tx.signature_signers) {
        return Err(ExecutionError::ContractError(fault));
    }
    if acct.nonce != tx.nonce {
        return Err(ExecutionError::InvalidNonce { expected: acct.nonce, got: tx.nonce });
    }
    acct.nonce = acct.nonce + 1;
    acct.last_touched_epoch = epoch;
    Ok(())
}

/// A user operation, optionally paid for by a paymaster.
#[derive(Clone, Copy, Debug)]
pub struct UserOpTx {
    pub sender: [u8; 32],
    pub nonce: u64,
    pub paymaster: Option<[u8; 32]>,
    /// The paymaster's sponsorship counter, required with a paymaster.
    pub paymaster_nonce: Option<u64>,
    pub call_gas_limit: u64,
}

/// The paymaster's part of a user operation applied to its account `pm`:
/// its nonce must match, it pays the call gas limit plus `GAS_USER_OP`
/// (saturating), and its nonce is bumped (saturating).
pub open spec fn sponsor(pm: Account, paymaster: [u8; 32], paymaster_nonce: u64, call_gas_limit: u64, epoch: u64)
    -> Result<Account, ExecutionError>
{
    let cost = sat_add(call_gas_limit, GAS_USER_OP);
    if pm.nonce != paymaster_nonce {
        Err(ExecutionError::InvalidNonce { expected: pm.nonce, got: paymaster_nonce })
    } else if pm.balance < cost {
        Err(ExecutionError::InsufficientGas { account: paymaster, available: pm.balance, required: cost })
    } else {
        Ok(Account { balance: sat_sub(pm.balance, cost), nonce: sat_add(pm.nonce, 1), last_touched_epoch: epoch, ..pm })
    }
}

fn apply_sponsor(pm: &mut Account, paymaster: [u8; 32], paymaster_nonce: u64, call_gas_limit: u64, epoch: u64)
    -> (r: Result<(), ExecutionError>)
    ensures
        match sponsor(*old(pm), paymaster, paymaster_nonce, call_gas_limit, epoch) {
            Ok(a) => r == Ok::<(), ExecutionError>(()) && *final(pm) == a,
            Err(e) => r == Err::<(), ExecutionError>(e) && *final(pm) == *old(pm),
        },
{
    if pm.nonce != paymaster_nonce {
        return Err(ExecutionError::InvalidNonce { expected: pm.nonce, got: paymaster_nonce });
    }
    let cost = call_gas_limit.saturating_add(GAS_USER_OP);
    if pm.balance < cost {
        return Err(ExecutionError::InsufficientGas { account: paymaster, available: pm.balance, required: cost });
    }
    pm.balance = pm.balance.saturating_sub(cost);
    pm.nonce = pm.nonce.saturating_add(1);
    pm.last_touched_epoch = epoch;
    Ok(())
}

/// Execute a user operation.
///
/// The sender's nonce must match; it is then bumped and its demurrage anchor
/// moved to `epoch` (this stays even if the sponsorship below is refused).
/// With a paymaster, a paymaster nonce is required, and the paymaster's
/// account is charged by [`sponsor`]. `paymaster_account` is the
/// paymaster's account when the paymaster is someone other than the
/// sender; when the sender sponsors itself its own (already bumped) account
/// is charged and `paymaster_account` is left alone.
pub fn execute_user_op(sender: &mut Account, paymaster_account: &mut Account, tx: &UserOpTx, epoch: u64)
    -> (r: Result<(), ExecutionError>)
    requires
        old(sender).nonce == tx.nonce ==> old(sender).nonce < u64::MAX,
    ensures
        old(sender).nonce != tx.nonce ==> r == Err::<(), ExecutionError>(ExecutionError::InvalidNonce {
            expected: old(sender).nonce, got: tx.nonce }) && *final(sender) == *old(sender)
            && *final(paymaster_account) == *old(paymaster_account),
        old(sender).nonce == tx.nonce ==> {
            let bumped = Account { nonce: (old(sender).nonce + 1) as u64, last_touched_epoch: epoch, ..*old(sender) };
            match tx.paymaster {
                None => r == Ok::<(), ExecutionError>(()) && *final(sender) == bumped
                    && *final(paymaster_account) == *old(paymaster_account),
                Some(pm) => match tx.paymaster_nonce {
                    None => r == Err::<(), ExecutionError>(ExecutionError::ContractError(ContractFault::MissingPaymasterNonce))
                        && *final(sender) == bumped && *final(paymaster_account) == *old(paymaster_account),
                    Some(pn) => if pm@ == tx.sender@ {
                        *final(paymaster_account) == *old(paymaster_account) && match sponsor(bumped, pm, pn, tx.call_gas_limit, epoch) {
                            Ok(a) => r == Ok::<(), ExecutionError>(()) && *final(sender) == a,
                            Err(e) => r == Err::<(), ExecutionError>(e) && *final(sender) == bumped,
                        }
                    } else {
                        *final(sender) == bumped && match sponsor(*old(paymaster_account), pm, pn, tx.call_gas_limit, epoch) {
                            Ok(a) => r == Ok::<(), ExecutionError>(()) && *final(paymaster_account) == a,
                            Err(e) => r == Err::<(), ExecutionError>(e) && *final(paymaster_account) == *old(paymaster_account),
                        }
                    },
                },
            }
        },
{
    if sender.nonce != tx.nonce {
        return Err(ExecutionError::InvalidNonce { expected: sender.nonce, got: tx.nonce });
    }
    sender.nonce = sender.nonce + 1;
    sender.last_touched_epoch = epoch;
    match tx.paymaster {
        None => Ok(()),
        Some(pm) => {
            let pn = match tx.paymaster_nonce {
                Some(n) => n,
                None => return Err(ExecutionError::ContractError(ContractFault::MissingPaymasterNonce)),
            };
            if bytes32_eq(&pm, &tx.sender) {
                apply_sponsor(sender, pm, pn, tx.call_gas_limit, epoch)
            } else {
                apply_sponsor(paymaster_account, pm, pn, tx.call_gas_limit, epoch)
            }
        },
    }
}

/// A contract bytecode upgrade.
pub struct UpgradeContractTx {
    pub owner: [u8; 32],
    pub contract_id: u64,
    pub new_bytecode: Vec<u8>,
    pub new_bytecode_hash: [u8; 32],
    pub nonce: u64,
    /// Present for the admin path.
    pub admin_signature: Option<Vec<u8>>,
    pub admin_public_key: Option<Vec<u8>>,
    /// Stakes endorsing the governance path.
    pub endorser_stakes: Vec<u64>,
    pub required_stake: u64,
}

/// Who authorized an upgrade.
#[derive(Clone, Copy, PartialEq, Eq, Debug)]
pub enum UpgradeAuth {
    /// The contract's admin, by address.
    Admin([u8; 32]),
    /// A stake quorum.
    Governance,
}

/// The authorization verdict of an upgrade, given the BLAKE3 digest of its
/// new bytecode, the contract's admin (`None` when the contract is not
/// found, `Some(None)` when it is frozen), the digest of the admin public
/// key if one is attached, and the verdict on the admin signature.
pub open spec fn upgrade_verdict(
    tx: UpgradeContractTx,
    bytecode_digest: Seq<u8>,
    contract_admin: Option<Option<[u8; 32]>>,
    admin_key_digest: Option<Seq<u8>>,
    admin_signature_valid: bool,
) -> Result<UpgradeAuth, ContractFault> {
    if bytecode_digest != tx.new_bytecode_hash@ {
        Err(ContractFault::UpgradeHashMismatch { supplied: tx.new_bytecode_hash })
    } else {
        match contract_admin {
            None => Err(ContractFault::UpgradeContractNotFound { contract_id: tx.contract_id }),
            Some(admin) => if tx.admin_signature.is_some() {
                match admin_key_digest {
                    None => Err(ContractFault::UpgradeMissingAdminKey),
                    Some(derived) => match admin {
                        None => Err(ContractFault::UpgradeContractFrozen { contract_id: tx.contract_id }),
                        Some(a) => if derived != a@ {
                            Err(ContractFault::UpgradeAdminKeyMismatch { admin: a })
                        } else if !admin_signature_valid {
                            Err(ContractFault::UpgradeBadAdminSignature)
                        } else {
                            Ok(UpgradeAuth::Admin(a))
                        },
                    },
                }
            } else {
                let endorsed = sat_fold(tx.endorser_stakes@);
                if endorsed < tx.required_stake {
                    Err(ContractFault::UpgradeQuorumNotMet { total: endorsed, required: tx.required_stake })
                } else if tx.required_stake == 0 {
                    Err(ContractFault::UpgradeZeroQuorum)
                } else {
                    Ok(UpgradeAuth::Governance)
                }
            },
        }
    }
}

fn saturating_total(values: &Vec<u64>) -> (r: u64)
    ensures
        r == sat_fold(values@),
{
    let mut acc: u64 = 0;
    let mut i: usize = 0;
    while i < values.len()
        invariant
            0 <= i <= values@.len(),
            acc == sat_fold(values@.take(i as int)),
        decreases values@.len() - i,
    {
        proof { assert(values@.take(i + 1).drop_last() =~= values@.take(i as int)); }
        acc = acc.saturating_add(values[i]);
        i = i + 1;
    }
    assert(values@.take(values@.len() as int) =~= values@);
    acc
}

/// Decide who authorizes an upgrade (see [`upgrade_verdict`]): the
/// bytecode must hash to the claimed hash; the contract must exist; with an
/// admin signature, the admin public key must be attached, the contract
/// must have an admin (not frozen), the key must hash to the admin address
/// and the signature must verify; without one, the endorsing stakes
/// (summed, saturating) must reach a non-zero required stake.
pub fn authorize_upgrade(
    tx: &UpgradeContractTx,
    bytecode_digest: [u8; 32],
    contract_admin: Option<Option<[u8; 32]>>,
    admin_key_digest: Option<[u8; 32]>,
    admin_signature_valid: bool,
) -> (r: Result<UpgradeAuth, ContractFault>)
    ensures
        r == upgrade_verdict(*tx, bytecode_digest@, contract_admin,
            match admin_key_digest { Some(d) => Some(d@), None => None }, admin_signature_valid),
{
    if !bytes32_eq(&bytecode_digest, &tx.new_bytecode_hash) {
        return Err(ContractFault::UpgradeHashMismatch { supplied: tx.new_bytecode_hash });
    }
    let admin = match contract_admin {
        None => return Err(ContractFault::UpgradeContractNotFound { contract_id: tx.contract_id }),
        Some(a) => a,
    };
    if tx.admin_signature.is_some() {
        let derived = match admin_key_digest {
            None => return Err(ContractFault::UpgradeMissingAdminKey),
            Some(d) => d,
        };
        let admin_addr = match admin {
            None => return Err(ContractFault::UpgradeContractFrozen { contract_id: tx.contract_id }),
            Some(a) => a,
        };
        if !bytes32_eq(&derived, &admin_addr) {
            return Err(ContractFault::UpgradeAdminKeyMismatch { admin: admin_addr });
        }
        if !admin_signature_valid {
            return Err(ContractFault::UpgradeBadAdminSignature);
        }
        Ok(UpgradeAuth::Admin(admin_addr))
    } else {
        let endorsed = saturating_total(&tx.endorser_stakes);
        if endorsed < tx.required_stake {
            return Err(ContractFault::UpgradeQuorumNotMet { total: endorsed, required: tx.required_stake });
        }
        if tx.required_stake == 0 {
            return Err(ContractFault::UpgradeZeroQuorum);
        }
        Ok(UpgradeAuth::Governance)
    }
}

/// The decimal digits of `n`, as `u64`'s `Display` writes them.
pub open spec fn decimal(n: nat) -> Seq<u8>
    decreases n,
{
    if n < 10 { seq![(48 + n) as u8] } else { decimal(n / 10).push((48 + n % 10) as u8) }
}

/// A nibble as a lowercase hexadecimal digit.
pub open spec fn hex_digit(v: int) -> u8 {
    if v < 10 { (48 + v) as u8 } else { (87 + v) as u8 }
}

/// Lowercase hexadecimal of a byte string, two digits per byte, high nibble first.
pub open spec fn hex_lower(s: Seq<u8>) -> Seq<u8>
    decreases s.len(),
{
    if s.len() == 0 {
        Seq::empty()
    } else {
        hex_lower(s.drop_last()).push(hex_digit((s.last() / 16) as int)).push(hex_digit((s.last() % 16) as int))
    }
}

/// The message an admin signs to upgrade a contract:
/// `{"type":"upgrade_contract","contract_id":<id>,"new_bytecode_hash_hex":"<hex>","nonce":<nonce>}`.
pub open spec fn upgrade_message(contract_id: u64, hash: Seq<u8>, nonce: u64) -> Seq<u8> {
    ascii("{\"type\":\"upgrade_contract\",\"contract_id\":"@) + decimal(contract_id as nat)
        + ascii(",\"new_bytecode_hash_hex\":\""@) + hex_lower(hash)
        + ascii("\",\"nonce\":"@) + decimal(nonce as nat) + ascii("}"@)
}

fn append_ascii(out: &mut Vec<u8>, s: &str)
    requires
        vstd::string::is_ascii(s),
    ensures
        final(out)@ == old(out)@ + ascii(s@),
{
    broadcast use vstd::string::is_ascii_spec_bytes;
    let b = s.as_bytes();
    assert(b@ =~= ascii(s@));
    let ghost start = out@;
    let mut i: usize = 0;
    while i < b.len()
        invariant
            0 <= i <= b@.len(),
            out@ == start + b@.take(i as int),
        decreases b@.len() - i,
    {
        out.push(b[i]);
        proof { assert(b@.take(i + 1) =~= b@.take(i as int).push(b@[i as int])); }
        i = i + 1;
    }
    assert(b@.take(b@.len() as int) =~= b@);
}

fn append_decimal(out: &mut Vec<u8>, n: u64)
    ensures
        final(out)@ == old(out)@ + decimal(n as nat),
    decreases n,
{
    if n >= 10 {
        append_decimal(out, n / 10);
    }
    let ghost mid = out@;
    out.push(48 + (n % 10) as u8);
    proof {
        if n >= 10 {
            assert(out@ =~= old(out)@ + decimal(n as nat));
        } else {
            assert(out@ =~= old(out)@ + decimal(n as nat));
        }
    }
}

fn append_hex(out: &mut Vec<u8>, bytes: &[u8; 32])
    ensures
        final(out)@ == old(out)@ + hex_lower(bytes@),
{
    let ghost start = out@;
    let mut i: usize = 0;
    while i < 32
        invariant
            0 <= i <= 32,
            bytes@.len() == 32,
            out@ == start + hex_lower(bytes@.take(i as int)),
        decreases 32 - i,
    {
        let b = bytes[i];
        let hi = b / 16;
        let lo = b % 16;
        out.push(if hi < 10 { 48 + hi } else { 87 + hi });
        out.push(if lo < 10 { 48 + lo } else { 87 + lo });
        proof {
            assert(bytes@.take(i + 1).drop_last() =~= bytes@.take(i as int));
            assert(bytes@.take(i + 1).last() == b);
            assert(out@ =~= start + hex_lower(bytes@.take(i + 1)));
        }
        i = i + 1;
    }
    assert(bytes@.take(32) =~= bytes@);
}

/// The message an admin signs to authorize an upgrade (see
/// [`upgrade_message`]); the signature verdict handed to
/// [`execute_upgrade_contract`] is on these bytes.
pub fn upgrade_signing_message(contract_id: u64, new_bytecode_hash: &[u8; 32], nonce: u64) -> (m: Vec<u8>)
    ensures
        m@ == upgrade_message(contract_id, new_bytecode_hash@, nonce),
{
    let mut m: Vec<u8> = Vec::new();
    proof {
        reveal_strlit("{\"type\":\"upgrade_contract\",\"contract_id\":");
        reveal_strlit(",\"new_bytecode_hash_hex\":\"");
        reveal_strlit("\",\"nonce\":");
        reveal_strlit("}");
    }
    append_ascii(&mut m, "{\"type\":\"upgrade_contract\",\"contract_id\":");
    append_decimal(&mut m, contract_id);
    append_ascii(&mut m, ",\"new_bytecode_hash_hex\":\"");
    append_hex(&mut m, new_bytecode_hash);
    append_ascii(&mut m, "\",\"nonce\":");
    append_decimal(&mut m, nonce);
    append_ascii(&mut m, "}");
    m
}

/// Check and authorize a contract upgrade by its owner.
///
/// The owner's nonce must match; it is then bumped (saturating) and the
/// owner's demurrage anchor moved to `epoch`, whatever follows. The new
/// bytecode and the admin public key (if attached) are hashed with BLAKE3
/// and the upgrade authorized by [`authorize_upgrade`]; `contract_admin`
/// and `admin_signature_valid` are as there.
pub fn execute_upgrade_contract(
    owner: &mut Account,
    tx: &UpgradeContractTx,
    contract_admin: Option<Option<[u8; 32]>>,
    admin_signature_valid: bool,
    epoch: u64,
) -> (r: Result<UpgradeAuth, ExecutionError>)
    ensures
        old(owner).nonce != tx.nonce ==> r == Err::<UpgradeAuth, ExecutionError>(ExecutionError::InvalidNonce {
            expected: old(owner).nonce, got: tx.nonce }) && *final(owner) == *old(owner),
        old(owner).nonce == tx.nonce ==> {
            &&& *final(owner) == (Account { nonce: sat_add(old(owner).nonce, 1), last_touched_epoch: epoch, ..*old(owner) })
            &&& r == match upgrade_verdict(*tx, blake3_digest(tx.new_bytecode@), contract_admin,
                    match tx.admin_public_key { Some(pk) => Some(blake3_digest(pk@)), None => None },
                    admin_signature_valid) {
                Ok(auth) => Ok::<UpgradeAuth, ExecutionError>(auth),
                Err(fault) => Err::<UpgradeAuth, ExecutionError>(ExecutionError::ContractError(fault)),
            }
        },
{
    if owner.nonce != tx.nonce {
        return Err(ExecutionError::InvalidNonce { expected: owner.nonce, got: tx.nonce });
    }
    owner.nonce = owner.nonce.saturating_add(1);
    owner.last_touched_epoch = epoch;
    let bytecode_digest = blake3_hash(tx.new_bytecode.as_slice());
    let admin_key_digest = match &tx.admin_public_key {
        Some(pk) => Some(blake3_hash(pk.as_slice())),
        None => None,
    };
    match authorize_upgrade(tx, bytecode_digest, contract_admin, admin_key_digest, admin_signature_valid) {
        Ok(auth) => Ok(auth),
        Err(fault) => Err(ExecutionError::ContractError(fault)),
    }
}

/// What storage rent took from an account.
#[derive(Clone, Copy, PartialEq, Eq, Debug)]
pub struct RentCharge {
    /// Taken from the balance (and owed to the refresh pool).
    pub debited: u64,
    /// The balance could not cover the rent: the account was wiped and is
    /// to be memorialized.
    pub exhausted: bool,
}

/// Charge one epoch of storage rent at `rate` per stored byte.
///
/// Accounts storing nothing pay nothing. Otherwise the rent is the stored
/// bytes times the rate (saturating). A balance that covers it is debited;
/// one that does not is taken whole and the account's storage deposit and
/// stored bytes are cleared.
pub fn charge_storage_rent(acct: &mut Account, rate: u64) -> (c: RentCharge)
    ensures
        old(acct).storage_bytes == 0 ==> c == (RentCharge { debited: 0, exhausted: false }) && *final(acct) == *old(acct),
        old(acct).storage_bytes > 0 ==> {
            let rent = if old(acct).storage_bytes * rate > u64::MAX { u64::MAX } else { (old(acct).storage_bytes * rate) as u64 };
            if old(acct).balance >= rent {
                c == (RentCharge { debited: rent, exhausted: false })
                    && *final(acct) == (Account { balance: (old(acct).balance - rent) as u64, ..*old(acct) })
            } else {
                c == (RentCharge { debited: old(acct).balance, exhausted: true })
                    && *final(acct) == (Account { balance: 0, storage_deposit: 0, storage_bytes: 0, ..*old(acct) })
            }
        },
{
    if acct.storage_bytes == 0 {
        return RentCharge { debited: 0, exhausted: false };
    }
    let rent = match acct.storage_bytes.checked_mul(rate) {
        Some(v) => v,
        None => u64::MAX,
    };
    if acct.balance >= rent {
        acct.balance = acct.balance - rent;
        RentCharge { debited: rent, exhausted: false }
    } else {
        let debited = acct.balance;
        acct.balance = 0;
        acct.storage_deposit = 0;
        acct.storage_bytes = 0;
        RentCharge { debited, exhausted: true }
    }
}

/// Rent owed for one epoch at `rate` per stored byte (saturating).
pub open spec fn rent_due(a: Account, rate: u64) -> u64 {
    if a.storage_bytes * rate > u64::MAX { u64::MAX } else { (a.storage_bytes * rate) as u64 }
}

/// What one epoch's rent takes from an account that stores something.
pub open spec fn rent_charge(a: Account, rate: u64) -> RentCharge {
    if a.balance >= rent_due(a, rate) {
        RentCharge { debited: rent_due(a, rate), exhausted: false }
    } else {
        RentCharge { debited: a.balance, exhausted: true }
    }
}

/// An account after one epoch's rent.
pub open spec fn after_rent(a: Account, rate: u64) -> Account {
    if a.storage_bytes == 0 {
        a
    } else if a.balance >= rent_due(a, rate) {
        Account { balance: (a.balance - rent_due(a, rate)) as u64, ..a }
    } else {
        Account { balance: 0, storage_deposit: 0, storage_bytes: 0, ..a }
    }
}

/// The charges of one epoch's rent over `accts`, in order: one per account
/// that stores something, with its position.
pub open spec fn rent_charges(accts: Seq<Account>, rate: u64) -> Seq<(usize, RentCharge)>
    decreases accts.len(),
{
    if accts.len() == 0 {
        Seq::empty()
    } else {
        let rest = rent_charges(accts.drop_last(), rate);
        let a = accts.last();
        if a.storage_bytes == 0 { rest } else { rest.push(((accts.len() - 1) as usize, rent_charge(a, rate))) }
    }
}

/// Sum of the balances of `accts`.
pub open spec fn total_balance(accts: Seq<Account>) -> int
    decreases accts.len(),
{
    if accts.len() == 0 { 0 } else { total_balance(accts.drop_last()) + accts.last().balance }
}

/// Sum of what a list of rent charges debited.
pub open spec fn total_debited(cs: Seq<(usize, RentCharge)>) -> int
    decreases cs.len(),
{
    if cs.len() == 0 { 0 } else { total_debited(cs.drop_last()) + cs.last().1.debited }
}

/// Collect one epoch of storage rent from every account (see
/// [`charge_storage_rent`]). Returns the charge of each account that stores
/// something, in order: the caller accrues each debited amount to the
/// refresh pool and memorializes each exhausted account. Rent is moved,
/// never created or destroyed: the balances after plus everything debited
/// equal the balances before.
pub fn collect_storage_rent(accounts: &mut Vec<Account>, rate: u64) -> (charges: Vec<(usize, RentCharge)>)
    ensures
        final(accounts)@.len() == old(accounts)@.len(),
        forall|i: int| 0 <= i < final(accounts)@.len() ==> #[trigger] final(accounts)@[i] == after_rent(old(accounts)@[i], rate),
        charges@ == rent_charges(old(accounts)@, rate),
        total_balance(final(accounts)@) + total_debited(charges@) == total_balance(old(accounts)@),
{
    let ghost orig = accounts@;
    let mut charges: Vec<(usize, RentCharge)> = Vec::new();
    let mut i: usize = 0;
    while i < accounts.len()
        invariant
            0 <= i <= accounts@.len(),
            accounts@.len() == orig.len(),
            forall|j: int| 0 <= j < i ==> #[trigger] accounts@[j] == after_rent(orig[j], rate),
            forall|j: int| i <= j < accounts@.len() ==> #[trigger] accounts@[j] == orig[j],
            charges@ == rent_charges(orig.take(i as int), rate),
            total_balance(accounts@.take(i as int)) + total_debited(charges@) == total_balance(orig.take(i as int)),
        decreases accounts@.len() - i,
    {
        let mut a = accounts[i];
        let stores = a.storage_bytes != 0;
        let c = charge_storage_rent(&mut a, rate);
        let ghost before = accounts@;
        if stores {
            charges.push((i, c));
        }
        accounts.set(i, a);
        proof {
            assert(orig.take(i + 1).drop_last() =~= orig.take(i as int));
            assert(accounts@.take(i + 1).drop_last() =~= before.take(i as int));
            assert forall|j: int| 0 <= j < i implies before[j] == #[trigger] accounts@[j] by {}
            assert(accounts@.take(i as int) =~= before.take(i as int));
            assert(accounts@.take(i + 1).last() == a);
            assert(orig.take(i + 1).last() == orig[i as int]);
            assert(total_balance(accounts@.take(i + 1)) == total_balance(before.take(i as int)) + a.balance);
            assert(total_balance(orig.take(i + 1)) == total_balance(orig.take(i as int)) + orig[i as int].balance);
            if stores {
                assert(charges@.drop_last() =~= rent_charges(orig.take(i as int), rate));
                assert(a.balance + c.debited == orig[i as int].balance);
            }
        }
        i = i + 1;
    }
    proof {
        assert(orig.take(orig.len() as int) =~= orig);
        assert(accounts@.take(accounts@.len() as int) =~= accounts@);
    }
    charges
}

/// The block gas limit after applying the `block_gas_limit` governance
/// parameter: its value when it parses as a `u64`, else `current`.
pub fn governed_block_gas_limit(current: u64, param: Option<&str>) -> (limit: u64)
    ensures
        limit == match param {
            Some(v) => match u64_text(text(v)) { Some(x) => x, None => current },
            None => current,
        },
{
    match param {
        None => current,
        Some(v) => match parse_u64(v.as_bytes()) {
            Some(x) => x,
            None => current,
        },
    }
}


/// Who may upgrade a contract: only a present contract whose new bytecode
/// hashes to the claimed hash; on the admin path exactly its admin (the
/// attached key hashing to the admin address, with a valid signature), never
/// for a frozen contract; on the stake path exactly when the endorsing
/// stakes add up to a non-zero required stake.
pub proof fn law_upgrade_authority(
    tx: UpgradeContractTx,
    bytecode_digest: Seq<u8>,
    contract_admin: Option<Option<[u8; 32]>>,
    admin_key_digest: Option<Seq<u8>>,
    admin_signature_valid: bool,
    a: [u8; 32],
)
    ensures
        ({
            let v = upgrade_verdict(tx, bytecode_digest, contract_admin, admin_key_digest, admin_signature_valid);
            &&& v is Ok ==> bytecode_digest == tx.new_bytecode_hash@ && contract_admin is Some
            &&& v == Ok::<UpgradeAuth, ContractFault>(UpgradeAuth::Admin(a)) <==> (
                bytecode_digest == tx.new_bytecode_hash@
                && contract_admin == Some(Some(a))
                && tx.admin_signature is Some
                && admin_key_digest == Some(a@)
                && admin_signature_valid)
            &&& contract_admin == Some(None::<[u8; 32]>) && tx.admin_signature is Some ==> v is Err
            &&& v == Ok::<UpgradeAuth, ContractFault>(UpgradeAuth::Governance) <==> (
                bytecode_digest == tx.new_bytecode_hash@
                && contract_admin is Some
                && tx.admin_signature is None
                && tx.required_stake > 0
                && total(tx.endorser_stakes@) >= tx.required_stake)
        }),
{
    lemma_sat_fold(tx.endorser_stakes@);
}

/// The signatures from `j` on pass exactly when each comes from an
/// authorized signer and none repeats a signer of any earlier signature.
proof fn lemma_signatures_pass(signers: Seq<[u8; 32]>, sigs: Seq<[u8; 32]>, j: int)
    requires
        0 <= j <= sigs.len(),
    ensures
        first_bad_signature(signers, sigs, j) is None <==> (forall|k: int| j <= k < sigs.len() ==>
            authorized(signers, #[trigger] sigs[k]) && !signer_repeats(sigs, k)),
    decreases sigs.len() - j,
{
    if j < sigs.len() {
        lemma_signatures_pass(signers, sigs, j + 1);
        if first_bad_signature(signers, sigs, j) is None {
            assert forall|k: int| j <= k < sigs.len() implies
                authorized(signers, #[trigger] sigs[k]) && !signer_repeats(sigs, k) by {
                if k > j {
                    assert(first_bad_signature(signers, sigs, j + 1) is None);
                }
            }
        } else {
            if !signer_repeats(sigs, j) && authorized(signers, sigs[j]) {
                assert(first_bad_signature(signers, sigs, j + 1) is Some);
                let k = choose|k: int| j + 1 <= k < sigs.len() &&
                    !(authorized(signers, #[trigger] sigs[k]) && !signer_repeats(sigs, k));
                assert(j <= k < sigs.len());
            }
        }
    }
}

/// A multisig transaction is authorized exactly when at least `threshold`
/// signatures are attached (counted as a `u8`), every one from a listed
/// signer and no signer twice.
pub proof fn law_multisig_signatures(tx_signers: Seq<[u8; 32]>, sigs: Seq<[u8; 32]>, threshold: u8)
    ensures
        (sigs.len() as u8 >= threshold && first_bad_signature(tx_signers, sigs, 0) is None) <==> (
            sigs.len() as u8 >= threshold
            && (forall|k: int| 0 <= k < sigs.len() ==> authorized(tx_signers, #[trigger] sigs[k]))
            && (forall|a: int, b: int| 0 <= a < b < sigs.len() ==> #[trigger] sigs[a]@ != #[trigger] sigs[b]@)),
{
    lemma_signatures_pass(tx_signers, sigs, 0);
    if first_bad_signature(tx_signers, sigs, 0) is None {
        assert forall|a: int, b: int| 0 <= a < b < sigs.len() implies #[trigger] sigs[a]@ != #[trigger] sigs[b]@ by {
            assert(!signer_repeats(sigs, b));
        }
    } else {
        if (forall|k: int| 0 <= k < sigs.len() ==> authorized(tx_signers, #[trigger] sigs[k]))
            && (forall|a: int, b: int| 0 <= a < b < sigs.len() ==> #[trigger] sigs[a]@ != #[trigger] sigs[b]@) {
            let k = choose|k: int| 0 <= k < sigs.len() &&
                !(authorized(tx_signers, #[trigger] sigs[k]) && !signer_repeats(sigs, k));
            assert(authorized(tx_signers, sigs[k]));
            let i = choose|i: int| 0 <= i < k && #[trigger] sigs[i]@ == sigs[k]@;
            assert(sigs[i]@ != sigs[k]@);
        }
    }
}

} // verus!
