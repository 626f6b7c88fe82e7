//! Admission rules and bookkeeping of shielded-pool transactions.
//!
//! Shield moves transparent balance into a private note; unshield and
//! private transfers spend notes by revealing their nullifiers. The
//! cryptographic checks (commitment openings, Merkle paths, the balance
//! binding) and the note tree itself belong to the proving engine; the
//! rules here decide, from the transaction and the engine's verdicts, which
//! error (if any) a transaction meets first, and apply the transparent and
//! pool-balance effects.

use vstd::prelude::*;
use crate::ledger::{Account, sat_sub};
use crate::rewards::total;
use crate::hashing::bytes32_eq;

verus! {

/// Depth of the note commitment tree.
pub const NOTE_TREE_DEPTH: usize = 20;
/// Phases kept live in the phased nullifier window.
pub const PNT_WINDOW_DEPTH: usize = 5;
/// Default number of epochs between nullifier-window phase advances.
pub const PNT_DEFAULT_PHASE_INTERVAL_EPOCHS: u64 = 100;

/// A witness list whose length does not match the inputs or outputs.
#[derive(Clone, Copy, PartialEq, Eq, Debug)]
pub enum WitnessField {
    InputAmounts,
    InputBlindings,
    InputValueCommitments,
    InputNoteCommitments,
    InputMerkleProofs,
    OutputAmounts,
    OutputBlindings,
}

/// Errors specific to privacy transaction execution.
#[derive(Clone, Copy, PartialEq, Eq, Debug)]
pub enum PrivacyExecError {
    ZeroShieldAmount,
    InsufficientBalanceForShield { available: u64, required: u64 },
    /// The shielding account's nonce is not the transaction's.
    ShieldNonceMismatch { expected: u64, got: u64 },
    ZeroUnshieldAmount,
    /// This nullifier is already spent, or spent twice in one transaction.
    DoubleSpend([u8; 32]),
    StaleAnchor,
    NoInputs,
    UnshieldBalanceMismatch,
    InvalidBalanceBinding,
    InvalidCommitmentOpening { index: usize },
    InvalidOutputCommitment { index: usize },
    InvalidMerkleProof { index: usize },
    MerkleProofAnchorMismatch { index: usize },
    MissingWitnessData { field: WitnessField, expected: usize, got: usize },
    WitnessFieldMismatch { expected: usize, got: usize },
    TreeFull,
    NoOutputs,
    FutureEpochInDecayProof { epoch: u64, current: u64 },
    BalanceOverflow,
}

/// Result of executing a privacy transaction.
#[derive(Clone, Copy, PartialEq, Eq, Debug)]
pub struct PrivacyExecResult {
    pub notes_created: usize,
    pub nullifiers_spent: usize,
    /// Fee collected (private transfers).
    pub fee_collected: u64,
    /// Change of the shielded pool: positive for a shield, negative otherwise.
    pub pool_delta: i64,
    /// Tree index of the shielded note.
    pub tree_index: Option<usize>,
    /// The shielded note's tree leaf.
    pub note_commitment: Option<[u8; 32]>,
    /// The shielded note's value commitment.
    pub value_commitment: Option<[u8; 32]>,
}

/// A shield: transparent balance into a new private note.
#[derive(Clone, Copy, Debug)]
pub struct ShieldTx {
    pub from: [u8; 32],
    pub amount: u64,
    pub nonce: u64,
    pub note_owner_hash: [u8; 32],
    pub value_blinding: [u8; 32],
}

/// Debit the shielding account.
///
/// Refused for a zero amount, then when the `transferable` balance (what
/// vesting leaves spendable at this epoch) is below the amount, then for a
/// nonce other than the account's. Otherwise the amount is debited, the
/// nonce bumped and the demurrage anchor moved to `epoch`.
pub fn shield_debit(sender: &mut Account, tx: &ShieldTx, transferable: u64, epoch: u64) -> (r: Result<(), PrivacyExecError>)
    requires
        transferable <= old(sender).balance,
        tx.amount > 0 && tx.amount <= transferable && old(sender).nonce == tx.nonce ==> old(sender).nonce < u64::MAX,
    ensures
        r == if tx.amount == 0 {
            Err(PrivacyExecError::ZeroShieldAmount)
        } else if transferable < tx.amount {
            Err(PrivacyExecError::InsufficientBalanceForShield { available: transferable, required: tx.amount })
        } else if old(sender).nonce != tx.nonce {
            Err(PrivacyExecError::ShieldNonceMismatch { expected: old(sender).nonce, got: tx.nonce })
        } else {
            Ok(())
        },
        r is Err ==> *final(sender) == *old(sender),
        r is Ok ==> *final(sender) == (Account {
            balance: (old(sender).balance - tx.amount) as u64,
            nonce: (old(sender).nonce + 1) as u64,
            last_touched_epoch: epoch,
            ..*old(sender)
        }),
{
    if tx.amount == 0 {
        return Err(PrivacyExecError::ZeroShieldAmount);
    }
    if transferable < tx.amount {
        return Err(PrivacyExecError::InsufficientBalanceForShield { available: transferable, required: tx.amount });
    }
    if sender.nonce != tx.nonce {
        return Err(PrivacyExecError::ShieldNonceMismatch { expected: sender.nonce, got: tx.nonce });
    }
    sender.balance = sender.balance - tx.amount;
    sender.nonce = sender.nonce + 1;
    sender.last_touched_epoch = epoch;
    Ok(())
}

/// The note the engine created for a shield.
#[derive(Clone, Copy, Debug)]
pub struct ShieldedNote {
    pub tree_index: usize,
    pub note_commitment: [u8; 32],
    pub value_commitment: [u8; 32],
}

/// Credit the shielded pool with a shield of `amount` into `note`.
/// Refused (`BalanceOverflow`) when the pool would pass `u64::MAX`.
pub fn shield_credit_pool(pool: &mut u64, amount: u64, note: &ShieldedNote) -> (r: Result<PrivacyExecResult, PrivacyExecError>)
    ensures
        *old(pool) + amount > u64::MAX ==> r == Err::<PrivacyExecResult, PrivacyExecError>(PrivacyExecError::BalanceOverflow)
            && *final(pool) == *old(pool),
        *old(pool) + amount <= u64::MAX ==> *final(pool) == *old(pool) + amount && r == Ok::<PrivacyExecResult, PrivacyExecError>(PrivacyExecResult {
            notes_created: 1,
            nullifiers_spent: 0,
            fee_collected: 0,
            pool_delta: amount as i64,
            tree_index: Some(note.tree_index),
            note_commitment: Some(note.note_commitment),
            value_commitment: Some(note.value_commitment),
        }),
{
    match pool.checked_add(amount) {
        None => Err(PrivacyExecError::BalanceOverflow),
        Some(p) => {
            *pool = p;
            Ok(PrivacyExecResult {
                notes_created: 1,
                nullifiers_spent: 0,
                fee_collected: 0,
                pool_delta: amount as i64,
                tree_index: Some(note.tree_index),
                note_commitment: Some(note.note_commitment),
                value_commitment: Some(note.value_commitment),
            })
        },
    }
}

/// What the spend checks read of the notes a transaction spends.
pub struct SpentInputs {
    pub nullifiers: Vec<[u8; 32]>,
    pub amounts: Vec<u64>,
    pub blindings: Vec<[u8; 32]>,
    pub value_commitments: Vec<[u8; 32]>,
    pub note_commitments: Vec<[u8; 32]>,
    /// Root of each supplied Merkle membership proof.
    pub proof_roots: Vec<[u8; 32]>,
}

/// The engine's verdicts on each spent input.
pub struct InputVerdicts {
    /// The nullifier is already spent (by the active double-spend source).
    pub already_spent: Vec<bool>,
    /// The value commitment opens to the claimed amount and blinding.
    pub opening_valid: Vec<bool>,
    /// The Merkle proof shows the note commitment in the tree.
    pub path_valid: Vec<bool>,
}

/// First index at or after `i` whose flag is set.
pub open spec fn first_set(flags: Seq<bool>, i: int) -> Option<int>
    decreases flags.len() - i,
{
    if i < 0 || i >= flags.len() {
        None
    } else if flags[i] {
        Some(i)
    } else {
        first_set(flags, i + 1)
    }
}

/// Index `j` repeats a nullifier listed before it.
pub open spec fn repeats_earlier(nfs: Seq<[u8; 32]>, j: int) -> bool {
    exists|i: int| 0 <= i < j && #[trigger] nfs[i]@ == nfs[j]@
}

/// First index at or after `j` that repeats an earlier nullifier.
pub open spec fn first_repeat(nfs: Seq<[u8; 32]>, j: int) -> Option<int>
    decreases nfs.len() - j,
{
    if j < 0 || j >= nfs.len() {
        None
    } else if repeats_earlier(nfs, j) {
        Some(j)
    } else {
        first_repeat(nfs, j + 1)
    }
}

/// First index at or after `i` of a decay proof ending after `current`.
pub open spec fn first_future(epochs: Seq<u64>, current: u64, i: int) -> Option<int>
    decreases epochs.len() - i,
{
    if i < 0 || i >= epochs.len() {
        None
    } else if epochs[i] > current {
        Some(i)
    } else {
        first_future(epochs, current, i + 1)
    }
}

/// The failure of input `i`, checked opening, then anchor, then path.
pub open spec fn input_fault(inputs: SpentInputs, v: InputVerdicts, anchor: [u8; 32], i: int) -> Option<PrivacyExecError> {
    if !v.opening_valid@[i] {
        Some(PrivacyExecError::InvalidCommitmentOpening { index: i as usize })
    } else if inputs.proof_roots@[i]@ != anchor@ {
        Some(PrivacyExecError::MerkleProofAnchorMismatch { index: i as usize })
    } else if !v.path_valid@[i] {
        Some(PrivacyExecError::InvalidMerkleProof { index: i as usize })
    } else {
        None
    }
}

/// The first failing input at or after `i`.
pub open spec fn first_input_fault(inputs: SpentInputs, v: InputVerdicts, anchor: [u8; 32], i: int) -> Option<PrivacyExecError>
    decreases inputs.nullifiers@.len() - i,
{
    if i < 0 || i >= inputs.nullifiers@.len() {
        None
    } else {
        match input_fault(inputs, v, anchor, i) {
            Some(e) => Some(e),
            None => first_input_fault(inputs, v, anchor, i + 1),
        }
    }
}

/// The witness lists of the inputs against their count, in checking order.
pub open spec fn input_witness_fault(inputs: SpentInputs) -> Option<PrivacyExecError> {
    let n = inputs.nullifiers@.len() as usize;
    if inputs.amounts@.len() != n {
        Some(PrivacyExecError::MissingWitnessData { field: WitnessField::InputAmounts, expected: n, got: inputs.amounts@.len() as usize })
    } else if inputs.blindings@.len() != n {
        Some(PrivacyExecError::MissingWitnessData { field: WitnessField::InputBlindings, expected: n, got: inputs.blindings@.len() as usize })
    } else if inputs.value_commitments@.len() != n {
        Some(PrivacyExecError::MissingWitnessData { field: WitnessField::InputValueCommitments, expected: n, got: inputs.value_commitments@.len() as usize })
    } else if inputs.note_commitments@.len() != n {
        Some(PrivacyExecError::MissingWitnessData { field: WitnessField::InputNoteCommitments, expected: n, got: inputs.note_commitments@.len() as usize })
    } else if inputs.proof_roots@.len() != n {
        Some(PrivacyExecError::MissingWitnessData { field: WitnessField::InputMerkleProofs, expected: n, got: inputs.proof_roots@.len() as usize })
    } else {
        None
    }
}

/// The checks shared by unshield and private transfer once the witness
/// lists are in shape: fresh anchor, no nullifier already spent, none
/// repeated, no decay proof from the future, every input valid.
pub open spec fn spend_fault(
    inputs: SpentInputs,
    v: InputVerdicts,
    anchor: [u8; 32],
    current_root: [u8; 32],
    proof_epochs: Seq<u64>,
    current_epoch: u64,
) -> Option<PrivacyExecError> {
    if anchor@ != current_root@ {
        Some(PrivacyExecError::StaleAnchor)
    } else {
        match first_set(v.already_spent@, 0) {
            Some(i) => Some(PrivacyExecError::DoubleSpend(inputs.nullifiers@[i])),
            None => match first_repeat(inputs.nullifiers@, 0) {
                Some(j) => Some(PrivacyExecError::DoubleSpend(inputs.nullifiers@[j])),
                None => match first_future(proof_epochs, current_epoch, 0) {
                    Some(k) => Some(PrivacyExecError::FutureEpochInDecayProof { epoch: proof_epochs[k], current: current_epoch }),
                    None => first_input_fault(inputs, v, anchor, 0),
                },
            },
        }
    }
}

/// The verdict vectors cover every input.
pub open spec fn verdicts_fit(inputs: SpentInputs, v: InputVerdicts) -> bool {
    &&& v.already_spent@.len() == inputs.nullifiers@.len()
    &&& v.opening_valid@.len() == inputs.nullifiers@.len()
    &&& v.path_valid@.len() == inputs.nullifiers@.len()
}

fn first_spent_index(flags: &Vec<bool>) -> (r: Option<usize>)
    ensures
        match first_set(flags@, 0) { Some(i) => 0 <= i < flags@.len() && r is Some && r->Some_0 as int == i, None => r is None },
{
    let mut i: usize = 0;
    while i < flags.len()
        invariant
            0 <= i <= flags@.len(),
            first_set(flags@, 0) == first_set(flags@, i as int),
        decreases flags@.len() - i,
    {
        if flags[i] {
            return Some(i);
        }
        i = i + 1;
    }
    None
}

fn first_repeat_index(nfs: &Vec<[u8; 32]>) -> (r: Option<usize>)
    ensures
        match first_repeat(nfs@, 0) { Some(j) => 0 <= j < nfs@.len() && r is Some && r->Some_0 as int == j, None => r is None },
{
    let mut j: usize = 0;
    while j < nfs.len()
        invariant
            0 <= j <= nfs@.len(),
            first_repeat(nfs@, 0) == first_repeat(nfs@, j as int),
        decreases nfs@.len() - j,
    {
        let mut i: usize = 0;
        while i < j
            invariant
                0 <= i <= j < nfs@.len(),
                first_repeat(nfs@, 0) == first_repeat(nfs@, j as int),
                forall|k: int| 0 <= k < i ==> nfs@[k]@ != nfs@[j as int]@,
            decreases j - i,
        {
            if bytes32_eq(&nfs[i], &nfs[j]) {
                assert(repeats_earlier(nfs@, j as int));
                return Some(j);
            }
            i = i + 1;
        }
        j = j + 1;
    }
    None
}

fn first_future_index(epochs: &Vec<u64>, current: u64) -> (r: Option<usize>)
    ensures
        match first_future(epochs@, current, 0) { Some(k) => 0 <= k < epochs@.len() && r is Some && r->Some_0 as int == k, None => r is None },
{
    let mut k: usize = 0;
    while k < epochs.len()
        invariant
            0 <= k <= epochs@.len(),
            first_future(epochs@, current, 0) == first_future(epochs@, current, k as int),
        decreases epochs@.len() - k,
    {
        if epochs[k] > current {
            return Some(k);
        }
        k = k + 1;
    }
    None
}

fn check_input_witnesses(inputs: &SpentInputs) -> (r: Result<(), PrivacyExecError>)
    ensures
        r == match input_witness_fault(*inputs) { Some(e) => Err(e), None => Ok(()) },
{
    let n = inputs.nullifiers.len();
    if inputs.amounts.len() != n {
        return Err(PrivacyExecError::MissingWitnessData { field: WitnessField::InputAmounts, expected: n, got: inputs.amounts.len() });
    }
    if inputs.blindings.len() != n {
        return Err(PrivacyExecError::MissingWitnessData { field: WitnessField::InputBlindings, expected: n, got: inputs.blindings.len() });
    }
    if inputs.value_commitments.len() != n {
        return Err(PrivacyExecError::MissingWitnessData { field: WitnessField::InputValueCommitments, expected: n, got: inputs.value_commitments.len() });
    }
    if inputs.note_commitments.len() != n {
        return Err(PrivacyExecError::MissingWitnessData { field: WitnessField::InputNoteCommitments, expected: n, got: inputs.note_commitments.len() });
    }
    if inputs.proof_roots.len() != n {
        return Err(PrivacyExecError::MissingWitnessData { field: WitnessField::InputMerkleProofs, expected: n, got: inputs.proof_roots.len() });
    }
    Ok(())
}

fn check_spend(
    inputs: &SpentInputs,
    v: &InputVerdicts,
    anchor: &[u8; 32],
    current_root: &[u8; 32],
    proof_epochs: &Vec<u64>,
    current_epoch: u64,
) -> (r: Result<(), PrivacyExecError>)
    requires
        verdicts_fit(*inputs, *v),
        input_witness_fault(*inputs).is_none(),
    ensures
        r == match spend_fault(*inputs, *v, *anchor, *current_root, proof_epochs@, current_epoch) {
            Some(e) => Err(e),
            None => Ok(()),
        },
{
    if !bytes32_eq(anchor, current_root) {
        return Err(PrivacyExecError::StaleAnchor);
    }
    if let Some(i) = first_spent_index(&v.already_spent) {
        return Err(PrivacyExecError::DoubleSpend(inputs.nullifiers[i]));
    }
    if let Some(j) = first_repeat_index(&inputs.nullifiers) {
        return Err(PrivacyExecError::DoubleSpend(inputs.nullifiers[j]));
    }
    if let Some(k) = first_future_index(proof_epochs, current_epoch) {
        return Err(PrivacyExecError::FutureEpochInDecayProof { epoch: proof_epochs[k], current: current_epoch });
    }
    let n = inputs.nullifiers.len();
    let mut i: usize = 0;
    while i < n
        invariant
            0 <= i <= n,
            n == inputs.nullifiers@.len(),
            verdicts_fit(*inputs, *v),
            input_witness_fault(*inputs).is_none(),
            spend_fault(*inputs, *v, *anchor, *current_root, proof_epochs@, current_epoch)
                == first_input_fault(*inputs, *v, *anchor, i as int),
        decreases n - i,
    {
        if !v.opening_valid[i] {
            return Err(PrivacyExecError::InvalidCommitmentOpening { index: i });
        }
        if !bytes32_eq(&inputs.proof_roots[i], anchor) {
            return Err(PrivacyExecError::MerkleProofAnchorMismatch { index: i });
        }
        if !v.path_valid[i] {
            return Err(PrivacyExecError::InvalidMerkleProof { index: i });
        }
        i = i + 1;
    }
    Ok(())
}

/// The checked sum of `amounts`: `None` when it passes `u64::MAX`.
pub fn checked_sum(amounts: &Vec<u64>) -> (r: Option<u64>)
    ensures
        total(amounts@) >= 0,
        r == if total(amounts@) > u64::MAX { None } else { Some(total(amounts@) as u64) },
{
    proof { lemma_total_nonneg(amounts@); }
    let mut acc: u64 = 0;
    let mut i: usize = 0;
    while i < amounts.len()
        invariant
            0 <= i <= amounts@.len(),
            acc == total(amounts@.take(i as int)),
        decreases amounts@.len() - i,
    {
        proof {
            assert(amounts@.take(i + 1).drop_last() =~= amounts@.take(i as int));
        }
        match acc.checked_add(amounts[i]) {
            Some(s) => acc = s,
            None => {
                proof { lemma_total_prefix_le(amounts@, i + 1); }
                return None;
            },
        }
        i = i + 1;
    }
    assert(amounts@.take(amounts@.len() as int) =~= amounts@);
    Some(acc)
}

/// A sum of unsigned values is never negative.
pub proof fn lemma_total_nonneg(s: Seq<u64>)
    ensures
        total(s) >= 0,
    decreases s.len(),
{
    if s.len() > 0 {
        lemma_total_nonneg(s.drop_last());
    }
}

/// A prefix never sums to more than the whole.
pub proof fn lemma_total_prefix_le(s: Seq<u64>, k: int)
    requires
        0 <= k <= s.len(),
    ensures
        total(s.take(k)) <= total(s),
    decreases s.len() - k,
{
    if k < s.len() {
        lemma_total_prefix_le(s, k + 1);
        assert(s.take(k + 1).drop_last() =~= s.take(k));
    } else {
        assert(s.take(k) =~= s);
    }
}

/// An unshield: spend notes, pay `amount` to a transparent account.
pub struct UnshieldTx {
    pub to: [u8; 32],
    pub amount: u64,
    pub anchor: [u8; 32],
    pub inputs: SpentInputs,
    pub change_commitments: Vec<[u8; 32]>,
    pub output_blindings: Vec<[u8; 32]>,
    /// End epoch of each energy-decay proof.
    pub proof_epochs: Vec<u64>,
}

/// Why an unshield is refused, in checking order, given the engine's
/// verdicts and its verdict on the balance binding over the input sum, the
/// change and the amount; `None` when it may proceed.
pub open spec fn unshield_fault(tx: UnshieldTx, v: InputVerdicts, current_root: [u8; 32], current_epoch: u64, binding_valid: bool) -> Option<PrivacyExecError> {
    if tx.amount == 0 {
        Some(PrivacyExecError::ZeroUnshieldAmount)
    } else if tx.inputs.nullifiers@.len() == 0 {
        Some(PrivacyExecError::NoInputs)
    } else if input_witness_fault(tx.inputs).is_some() {
        input_witness_fault(tx.inputs)
    } else if tx.output_blindings@.len() != tx.change_commitments@.len() {
        Some(PrivacyExecError::WitnessFieldMismatch { expected: tx.change_commitments@.len() as usize, got: tx.output_blindings@.len() as usize })
    } else if spend_fault(tx.inputs, v, tx.anchor, current_root, tx.proof_epochs@, current_epoch).is_some() {
        spend_fault(tx.inputs, v, tx.anchor, current_root, tx.proof_epochs@, current_epoch)
    } else if total(tx.inputs.amounts@) > u64::MAX {
        Some(PrivacyExecError::BalanceOverflow)
    } else if !binding_valid {
        Some(PrivacyExecError::InvalidBalanceBinding)
    } else if total(tx.inputs.amounts@) < tx.amount {
        Some(PrivacyExecError::UnshieldBalanceMismatch)
    } else {
        None
    }
}

/// Every check of an unshield other than the balance check passes: a
/// non-zero amount, some inputs, complete witnesses, a change blinding per
/// change note, unspent and well-proved inputs, an input sum that fits, and
/// a valid balance binding.
pub open spec fn unshield_preconditions_met(tx: UnshieldTx, v: InputVerdicts, current_root: [u8; 32], current_epoch: u64, binding_valid: bool) -> bool {
    &&& tx.amount > 0
    &&& tx.inputs.nullifiers@.len() > 0
    &&& input_witness_fault(tx.inputs) is None
    &&& tx.output_blindings@.len() == tx.change_commitments@.len()
    &&& spend_fault(tx.inputs, v, tx.anchor, current_root, tx.proof_epochs@, current_epoch) is None
    &&& total(tx.inputs.amounts@) <= u64::MAX
    &&& binding_valid
}

/// Once every other check passes, an unshield is accepted exactly when the
/// spent notes cover the amount (what is left over stays shielded as
/// change); an uncovered amount is a balance mismatch. An accepted unshield
/// always has its amount covered.
pub proof fn law_unshield_covers_amount(tx: UnshieldTx, v: InputVerdicts, current_root: [u8; 32], current_epoch: u64, binding_valid: bool)
    ensures
        unshield_preconditions_met(tx, v, current_root, current_epoch, binding_valid) ==> {
            &&& (unshield_fault(tx, v, current_root, current_epoch, binding_valid) is None
                <==> total(tx.inputs.amounts@) >= tx.amount)
            &&& (total(tx.inputs.amounts@) < tx.amount ==>
                unshield_fault(tx, v, current_root, current_epoch, binding_valid) == Some(PrivacyExecError::UnshieldBalanceMismatch))
        },
        unshield_fault(tx, v, current_root, current_epoch, binding_valid) is None ==>
            total(tx.inputs.amounts@) >= tx.amount && tx.amount > 0 && binding_valid,
{
}

/// Check an unshield before any state changes; on success return the sum
/// of the spent notes (`amount` leaves as change of that sum minus the
/// amount). `binding_valid` is the verdict on the balance binding for the
/// input sum, the change `sum - amount` (saturating) and the amount.
pub fn check_unshield(tx: &UnshieldTx, v: &InputVerdicts, current_root: &[u8; 32], current_epoch: u64, binding_valid: bool)
    -> (r: Result<u64, PrivacyExecError>)
    requires
        verdicts_fit(tx.inputs, *v),
    ensures
        match unshield_fault(*tx, *v, *current_root, current_epoch, binding_valid) {
            Some(e) => r == Err::<u64, PrivacyExecError>(e),
            None => r == Ok::<u64, PrivacyExecError>(total(tx.inputs.amounts@) as u64),
        },
        r matches Ok(sum_in) ==> sum_in == total(tx.inputs.amounts@) && sum_in >= tx.amount,
        unshield_preconditions_met(*tx, *v, *current_root, current_epoch, binding_valid) ==>
            (r is Ok <==> total(tx.inputs.amounts@) >= tx.amount),
{
    proof { law_unshield_covers_amount(*tx, *v, *current_root, current_epoch, binding_valid); }
    if tx.amount == 0 {
        return Err(PrivacyExecError::ZeroUnshieldAmount);
    }
    if tx.inputs.nullifiers.len() == 0 {
        return Err(PrivacyExecError::NoInputs);
    }
    if let Err(e) = check_input_witnesses(&tx.inputs) {
        return Err(e);
    }
    if tx.output_blindings.len() != tx.change_commitments.len() {
        return Err(PrivacyExecError::WitnessFieldMismatch { expected: tx.change_commitments.len(), got: tx.output_blindings.len() });
    }
    if let Err(e) = check_spend(&tx.inputs, v, &tx.anchor, current_root, &tx.proof_epochs, current_epoch) {
        return Err(e);
    }
    let sum_in = match checked_sum(&tx.inputs.amounts) {
        Some(s) => s,
        None => return Err(PrivacyExecError::BalanceOverflow),
    };
    if !binding_valid {
        return Err(PrivacyExecError::InvalidBalanceBinding);
    }
    if sum_in < tx.amount {
        return Err(PrivacyExecError::UnshieldBalanceMismatch);
    }
    Ok(sum_in)
}

/// The `i64` pool change of paying out `amount` from the pool: the
/// negation of `amount` reinterpreted as `i64`.
pub open spec fn outflow_delta(amount: u64) -> i64 {
    (-((amount as i64) as int)) as i64
}

/// Pay out a checked unshield after its nullifiers are spent and its change
/// notes inserted: credit `tx.amount` to the receiver (refused with
/// `BalanceOverflow` past `u64::MAX`, in which case nothing changes) and
/// move its demurrage anchor to `epoch`, then take the amount from the pool
/// (saturating). The result counts the transaction's change notes as
/// created and its nullifiers as spent.
pub fn finish_unshield(
    receiver: &mut Account,
    pool: &mut u64,
    tx: &UnshieldTx,
    epoch: u64,
) -> (r: Result<PrivacyExecResult, PrivacyExecError>)
    requires
        tx.amount != 0x8000_0000_0000_0000u64,
    ensures
        old(receiver).balance + tx.amount > u64::MAX ==> r == Err::<PrivacyExecResult, PrivacyExecError>(PrivacyExecError::BalanceOverflow)
            && *final(receiver) == *old(receiver) && *final(pool) == *old(pool),
        old(receiver).balance + tx.amount <= u64::MAX ==> {
            &&& *final(receiver) == (Account { balance: (old(receiver).balance + tx.amount) as u64, last_touched_epoch: epoch, ..*old(receiver) })
            &&& *final(pool) == sat_sub(*old(pool), tx.amount)
            &&& r == Ok::<PrivacyExecResult, PrivacyExecError>(PrivacyExecResult {
                notes_created: tx.change_commitments@.len() as usize,
                nullifiers_spent: tx.inputs.nullifiers@.len() as usize,
                fee_collected: 0,
                pool_delta: outflow_delta(tx.amount),
                tree_index: None,
                note_commitment: None,
                value_commitment: None,
            })
        },
{
    let amount = tx.amount;
    let credited = match receiver.balance.checked_add(amount) {
        Some(b) => b,
        None => return Err(PrivacyExecError::BalanceOverflow),
    };
    receiver.balance = credited;
    receiver.last_touched_epoch = epoch;
    *pool = if *pool >= amount { *pool - amount } else { 0 };
    let signed = amount as i64;
    assert(signed != i64::MIN) by (bit_vector)
        requires signed == amount as i64, amount != 0x8000_0000_0000_0000u64;
    Ok(PrivacyExecResult {
        notes_created: tx.change_commitments.len(),
        nullifiers_spent: tx.inputs.nullifiers.len(),
        fee_collected: 0,
        pool_delta: -signed,
        tree_index: None,
        note_commitment: None,
        value_commitment: None,
    })
}

/// A private transfer: spend notes, create notes, pay `fee` out of the pool.
pub struct PrivateTransferTx {
    pub anchor: [u8; 32],
    pub inputs: SpentInputs,
    pub output_commitments: Vec<[u8; 32]>,
    pub output_amounts: Vec<u64>,
    pub output_blindings: Vec<[u8; 32]>,
    pub fee: u64,
    pub proof_epochs: Vec<u64>,
}

/// First output at or after `i` whose commitment does not match its
/// claimed amount and blinding.
pub open spec fn first_bad_output(output_valid: Seq<bool>, i: int) -> Option<int>
    decreases output_valid.len() - i,
{
    if i < 0 || i >= output_valid.len() {
        None
    } else if !output_valid[i] {
        Some(i)
    } else {
        first_bad_output(output_valid, i + 1)
    }
}

fn first_bad_output_index(valid: &Vec<bool>) -> (r: Option<usize>)
    ensures
        match first_bad_output(valid@, 0) { Some(i) => 0 <= i < valid@.len() && r is Some && r->Some_0 as int == i, None => r is None },
{
    let mut i: usize = 0;
    while i < valid.len()
        invariant
            0 <= i <= valid@.len(),
            first_bad_output(valid@, 0) == first_bad_output(valid@, i as int),
        decreases valid@.len() - i,
    {
        if !valid[i] {
            return Some(i);
        }
        i = i + 1;
    }
    None
}

/// Why a private transfer is refused, in checking order; `output_valid`
/// holds the verdict on each output commitment and `binding_valid` the one
/// on the balance binding over the input sum, output sum and fee.
pub open spec fn transfer_fault(
    tx: PrivateTransferTx,
    v: InputVerdicts,
    output_valid: Seq<bool>,
    current_root: [u8; 32],
    current_epoch: u64,
    binding_valid: bool,
) -> Option<PrivacyExecError> {
    let n_out = tx.output_commitments@.len() as usize;
    if tx.inputs.nullifiers@.len() == 0 {
        Some(PrivacyExecError::NoInputs)
    } else if n_out == 0 {
        Some(PrivacyExecError::NoOutputs)
    } else if input_witness_fault(tx.inputs).is_some() {
        input_witness_fault(tx.inputs)
    } else if tx.output_amounts@.len() != n_out {
        Some(PrivacyExecError::MissingWitnessData { field: WitnessField::OutputAmounts, expected: n_out, got: tx.output_amounts@.len() as usize })
    } else if tx.output_blindings@.len() != n_out {
        Some(PrivacyExecError::MissingWitnessData { field: WitnessField::OutputBlindings, expected: n_out, got: tx.output_blindings@.len() as usize })
    } else if spend_fault(tx.inputs, v, tx.anchor, current_root, tx.proof_epochs@, current_epoch).is_some() {
        spend_fault(tx.inputs, v, tx.anchor, current_root, tx.proof_epochs@, current_epoch)
    } else if first_bad_output(output_valid, 0).is_some() {
        Some(PrivacyExecError::InvalidOutputCommitment { index: first_bad_output(output_valid, 0)->Some_0 as usize })
    } else if total(tx.inputs.amounts@) > u64::MAX || total(tx.output_amounts@) > u64::MAX {
        Some(PrivacyExecError::BalanceOverflow)
    } else if !binding_valid {
        Some(PrivacyExecError::InvalidBalanceBinding)
    } else if total(tx.output_amounts@) + tx.fee > u64::MAX {
        Some(PrivacyExecError::BalanceOverflow)
    } else if total(tx.inputs.amounts@) != total(tx.output_amounts@) + tx.fee {
        Some(PrivacyExecError::UnshieldBalanceMismatch)
    } else {
        None
    }
}

/// Every check of a private transfer other than the balance check passes.
pub open spec fn transfer_preconditions_met(
    tx: PrivateTransferTx,
    v: InputVerdicts,
    output_valid: Seq<bool>,
    current_root: [u8; 32],
    current_epoch: u64,
    binding_valid: bool,
) -> bool {
    &&& tx.inputs.nullifiers@.len() > 0
    &&& tx.output_commitments@.len() > 0
    &&& input_witness_fault(tx.inputs) is None
    &&& tx.output_amounts@.len() == tx.output_commitments@.len()
    &&& tx.output_blindings@.len() == tx.output_commitments@.len()
    &&& spend_fault(tx.inputs, v, tx.anchor, current_root, tx.proof_epochs@, current_epoch) is None
    &&& forall|i: int| 0 <= i < output_valid.len() ==> #[trigger] output_valid[i]
    &&& total(tx.inputs.amounts@) <= u64::MAX
    &&& total(tx.output_amounts@) + tx.fee <= u64::MAX
    &&& binding_valid
}

/// Once every other check passes, a private transfer is accepted exactly
/// when its inputs equal its outputs plus the fee; otherwise it is a balance
/// mismatch. Nothing is created or destroyed by an accepted transfer.
pub proof fn law_private_transfer_balances(
    tx: PrivateTransferTx,
    v: InputVerdicts,
    output_valid: Seq<bool>,
    current_root: [u8; 32],
    current_epoch: u64,
    binding_valid: bool,
)
    ensures
        transfer_preconditions_met(tx, v, output_valid, current_root, current_epoch, binding_valid) ==> {
            &&& (transfer_fault(tx, v, output_valid, current_root, current_epoch, binding_valid) is None
                <==> total(tx.inputs.amounts@) == total(tx.output_amounts@) + tx.fee)
            &&& (total(tx.inputs.amounts@) != total(tx.output_amounts@) + tx.fee ==>
                transfer_fault(tx, v, output_valid, current_root, current_epoch, binding_valid) == Some(PrivacyExecError::UnshieldBalanceMismatch))
        },
        transfer_fault(tx, v, output_valid, current_root, current_epoch, binding_valid) is None ==>
            total(tx.inputs.amounts@) == total(tx.output_amounts@) + tx.fee,
{
    lemma_total_nonneg(tx.output_amounts@);
    lemma_total_nonneg(tx.inputs.amounts@);
    assert(tx.output_commitments@.len() == tx.output_commitments.len());
    if transfer_preconditions_met(tx, v, output_valid, current_root, current_epoch, binding_valid) {
        lemma_no_bad_output(output_valid, 0);
    }
}

proof fn lemma_no_bad_output(output_valid: Seq<bool>, i: int)
    requires
        0 <= i,
        forall|k: int| 0 <= k < output_valid.len() ==> #[trigger] output_valid[k],
    ensures
        first_bad_output(output_valid, i) is None,
    decreases output_valid.len() - i,
{
    if i < output_valid.len() {
        lemma_no_bad_output(output_valid, i + 1);
    }
}

/// Check a private transfer before any state changes; on success return
/// the input and output sums, which balance: inputs = outputs + fee.
pub fn check_private_transfer(
    tx: &PrivateTransferTx,
    v: &InputVerdicts,
    output_valid: &Vec<bool>,
    current_root: &[u8; 32],
    current_epoch: u64,
    binding_valid: bool,
) -> (r: Result<(u64, u64), PrivacyExecError>)
    requires
        verdicts_fit(tx.inputs, *v),
        output_valid@.len() == tx.output_commitments@.len(),
    ensures
        match transfer_fault(*tx, *v, output_valid@, *current_root, current_epoch, binding_valid) {
            Some(e) => r == Err::<(u64, u64), PrivacyExecError>(e),
            None => r == Ok::<(u64, u64), PrivacyExecError>((total(tx.inputs.amounts@) as u64, total(tx.output_amounts@) as u64))
                && total(tx.inputs.amounts@) == total(tx.output_amounts@) + tx.fee,
        },
{
    let n_out = tx.output_commitments.len();
    if tx.inputs.nullifiers.len() == 0 {
        return Err(PrivacyExecError::NoInputs);
    }
    if n_out == 0 {
        return Err(PrivacyExecError::NoOutputs);
    }
    if let Err(e) = check_input_witnesses(&tx.inputs) {
        return Err(e);
    }
    if tx.output_amounts.len() != n_out {
        return Err(PrivacyExecError::MissingWitnessData { field: WitnessField::OutputAmounts, expected: n_out, got: tx.output_amounts.len() });
    }
    if tx.output_blindings.len() != n_out {
        return Err(PrivacyExecError::MissingWitnessData { field: WitnessField::OutputBlindings, expected: n_out, got: tx.output_blindings.len() });
    }
    if let Err(e) = check_spend(&tx.inputs, v, &tx.anchor, current_root, &tx.proof_epochs, current_epoch) {
        return Err(e);
    }
    if let Some(i) = first_bad_output_index(output_valid) {
        return Err(PrivacyExecError::InvalidOutputCommitment { index: i });
    }
    let sum_in = match checked_sum(&tx.inputs.amounts) {
        Some(s) => s,
        None => return Err(PrivacyExecError::BalanceOverflow),
    };
    let sum_out = match checked_sum(&tx.output_amounts) {
        Some(s) => s,
        None => return Err(PrivacyExecError::BalanceOverflow),
    };
    if !binding_valid {
        return Err(PrivacyExecError::InvalidBalanceBinding);
    }
    let spent = match sum_out.checked_add(tx.fee) {
        Some(s) => s,
        None => return Err(PrivacyExecError::BalanceOverflow),
    };
    if sum_in != spent {
        return Err(PrivacyExecError::UnshieldBalanceMismatch);
    }
    Ok((sum_in, sum_out))
}

/// Settle a checked private transfer after its nullifiers are spent and its
/// outputs inserted: a non-zero fee leaves the pool (saturating). The result
/// counts the transaction's output notes as created, its nullifiers as
/// spent and its fee as collected.
pub fn finish_private_transfer(pool: &mut u64, tx: &PrivateTransferTx)
    -> (r: PrivacyExecResult)
    requires
        tx.fee != 0x8000_0000_0000_0000u64,
    ensures
        *final(pool) == if tx.fee > 0 { sat_sub(*old(pool), tx.fee) } else { *old(pool) },
        r == (PrivacyExecResult {
            notes_created: tx.output_commitments@.len() as usize,
            nullifiers_spent: tx.inputs.nullifiers@.len() as usize,
            fee_collected: tx.fee,
            pool_delta: outflow_delta(tx.fee),
            tree_index: None,
            note_commitment: None,
            value_commitment: None,
        }),
{
    let fee = tx.fee;
    if fee > 0 {
        *pool = if *pool >= fee { *pool - fee } else { 0 };
    }
    let signed = fee as i64;
    assert(signed != i64::MIN) by (bit_vector)
        requires signed == fee as i64, fee != 0x8000_0000_0000_0000u64;
    PrivacyExecResult {
        notes_created: tx.output_commitments.len(),
        nullifiers_spent: tx.inputs.nullifiers.len(),
        fee_collected: fee,
        pool_delta: -signed,
        tree_index: None,
        note_commitment: None,
        value_commitment: None,
    }
}

/// The phased nullifier window's advance schedule.
#[derive(Clone, Copy, PartialEq, Eq, Debug)]
pub struct PhaseClock {
    /// Epochs between advances; zero disables advancing.
    pub interval_epochs: u64,
    pub last_phase_epoch: Option<u64>,
    /// Note-tree root when the window last advanced.
    pub root_at_last_advance: Option<[u8; 32]>,
}

/// The window advances at `epoch` when advancing is enabled, the interval
/// has elapsed since the last advance (saturating), and the note-tree root
/// has moved since then (the first tick always fires).
pub open spec fn phase_due(clock: PhaseClock, epoch: u64, root: [u8; 32]) -> bool {
    &&& clock.interval_epochs != 0
    &&& match clock.last_phase_epoch {
        Some(last) => epoch >= crate::ledger::sat_add(last, clock.interval_epochs),
        None => true,
    }
    &&& match clock.root_at_last_advance {
        Some(prev) => prev@ != root@,
        None => true,
    }
}

/// Advance the nullifier window if it is due (see [`phase_due`]); on an
/// advance record `epoch` and the current note-tree `root`. Returns whether
/// the window advanced.
pub fn tick_pnt_phase(clock: &mut PhaseClock, epoch: u64, root: [u8; 32]) -> (advanced: bool)
    ensures
        advanced == phase_due(*old(clock), epoch, root),
        advanced ==> *final(clock) == (PhaseClock {
            last_phase_epoch: Some(epoch),
            root_at_last_advance: Some(root),
            ..*old(clock)
        }),
        !advanced ==> *final(clock) == *old(clock),
{
    if clock.interval_epochs == 0 {
        return false;
    }
    let due = match clock.last_phase_epoch {
        Some(last) => epoch >= last.saturating_add(clock.interval_epochs),
        None => true,
    };
    if !due {
        return false;
    }
    let root_changed = match clock.root_at_last_advance {
        Some(prev) => !bytes32_eq(&prev, &root),
        None => true,
    };
    if !root_changed {
        return false;
    }
    clock.last_phase_epoch = Some(epoch);
    clock.root_at_last_advance = Some(root);
    true
}


/// Spacing of window advances: with advancing disabled (interval zero) the
/// window never moves; the first tick moves it; after an advance at `e1`
/// with root `root1`, a later tick moves it again exactly when at least the
/// interval has passed (saturating) and the root differs from `root1`.
pub proof fn law_phase_spacing(clock: PhaseClock, e1: u64, root1: [u8; 32], e2: u64, root2: [u8; 32])
    ensures
        clock.interval_epochs == 0 ==> !phase_due(clock, e1, root1),
        (clock.interval_epochs > 0 && clock.last_phase_epoch is None && clock.root_at_last_advance is None)
            ==> phase_due(clock, e1, root1),
        phase_due(clock, e1, root1) ==> ({
            let next = PhaseClock { last_phase_epoch: Some(e1), root_at_last_advance: Some(root1), ..clock };
            let due_at: int = if e1 + clock.interval_epochs > u64::MAX { u64::MAX as int } else { e1 + clock.interval_epochs };
            phase_due(next, e2, root2) <==> (e2 >= due_at && root2@ != root1@)
        }),
{
}

proof fn lemma_first_set_none(f: Seq<bool>, i: int)
    requires
        0 <= i <= f.len(),
    ensures
        first_set(f, i) is None <==> forall|k: int| i <= k < f.len() ==> !#[trigger] f[k],
    decreases f.len() - i,
{
    if i < f.len() {
        lemma_first_set_none(f, i + 1);
    }
}

proof fn lemma_first_repeat_none(nfs: Seq<[u8; 32]>, j: int)
    requires
        0 <= j <= nfs.len(),
    ensures
        first_repeat(nfs, j) is None <==> forall|k: int| j <= k < nfs.len() ==> !#[trigger] repeats_earlier(nfs, k),
    decreases nfs.len() - j,
{
    if j < nfs.len() {
        lemma_first_repeat_none(nfs, j + 1);
    }
}

proof fn lemma_first_future_none(epochs: Seq<u64>, current: u64, i: int)
    requires
        0 <= i <= epochs.len(),
    ensures
        first_future(epochs, current, i) is None <==> forall|k: int| i <= k < epochs.len() ==> #[trigger] epochs[k] <= current,
    decreases epochs.len() - i,
{
    if i < epochs.len() {
        lemma_first_future_none(epochs, current, i + 1);
    }
}

proof fn lemma_first_input_fault_none(inputs: SpentInputs, v: InputVerdicts, anchor: [u8; 32], i: int)
    requires
        0 <= i <= inputs.nullifiers@.len(),
    ensures
        first_input_fault(inputs, v, anchor, i) is None <==> forall|k: int| i <= k < inputs.nullifiers@.len() ==>
            (#[trigger] input_fault(inputs, v, anchor, k)) is None,
    decreases inputs.nullifiers@.len() - i,
{
    if i < inputs.nullifiers@.len() {
        lemma_first_input_fault_none(inputs, v, anchor, i + 1);
    }
}

/// The spend checks, on the inputs themselves: they pass exactly when the
/// anchor is the current note-tree root, no input's nullifier is already
/// spent or listed twice, no decay proof ends after the current epoch, and
/// every input opens to its commitment and is proved in the tree under the
/// anchor. So an accepted unshield or private transfer never spends a
/// note twice.
pub proof fn law_spend_checks(
    inputs: SpentInputs,
    v: InputVerdicts,
    anchor: [u8; 32],
    current_root: [u8; 32],
    proof_epochs: Seq<u64>,
    current_epoch: u64,
)
    requires
        verdicts_fit(inputs, v),
        input_witness_fault(inputs) is None,
    ensures
        spend_fault(inputs, v, anchor, current_root, proof_epochs, current_epoch) is None <==> {
            &&& anchor@ == current_root@
            &&& forall|i: int| 0 <= i < inputs.nullifiers@.len() ==> {
                &&& !(#[trigger] v.already_spent@[i])
                &&& v.opening_valid@[i]
                &&& inputs.proof_roots@[i]@ == anchor@
                &&& v.path_valid@[i]
            }
            &&& forall|a: int, b: int| 0 <= a < b < inputs.nullifiers@.len() ==>
                #[trigger] inputs.nullifiers@[a]@ != #[trigger] inputs.nullifiers@[b]@
            &&& forall|k: int| 0 <= k < proof_epochs.len() ==> #[trigger] proof_epochs[k] <= current_epoch
        },
{
    let n = inputs.nullifiers@.len();
    let nfs = inputs.nullifiers@;
    lemma_first_set_none(v.already_spent@, 0);
    lemma_first_repeat_none(nfs, 0);
    lemma_first_future_none(proof_epochs, current_epoch, 0);
    lemma_first_input_fault_none(inputs, v, anchor, 0);
    let ok = spend_fault(inputs, v, anchor, current_root, proof_epochs, current_epoch) is None;
    if ok {
        assert forall|i: int| 0 <= i < n implies {
            &&& !(#[trigger] v.already_spent@[i])
            &&& v.opening_valid@[i]
            &&& inputs.proof_roots@[i]@ == anchor@
            &&& v.path_valid@[i]
        } by {
            assert(input_fault(inputs, v, anchor, i) is None);
        }
        assert forall|a: int, b: int| 0 <= a < b < n implies
            #[trigger] nfs[a]@ != #[trigger] nfs[b]@ by {
            assert(!repeats_earlier(nfs, b));
        }
    } else {
        if anchor@ == current_root@
            && (forall|i: int| 0 <= i < n ==> {
                &&& !(#[trigger] v.already_spent@[i])
                &&& v.opening_valid@[i]
                &&& inputs.proof_roots@[i]@ == anchor@
                &&& v.path_valid@[i]
            })
            && (forall|a: int, b: int| 0 <= a < b < n ==> #[trigger] nfs[a]@ != #[trigger] nfs[b]@)
            && (forall|k: int| 0 <= k < proof_epochs.len() ==> #[trigger] proof_epochs[k] <= current_epoch) {
            assert forall|k: int| 0 <= k < v.already_spent@.len() implies !#[trigger] v.already_spent@[k] by {}
            assert forall|k: int| 0 <= k < n implies !#[trigger] repeats_earlier(nfs, k) by {
                if repeats_earlier(nfs, k) {
                    let i = choose|i: int| 0 <= i < k && #[trigger] nfs[i]@ == nfs[k]@;
                    assert(nfs[i]@ != nfs[k]@);
                }
            }
            assert forall|k: int| 0 <= k < n implies (#[trigger] input_fault(inputs, v, anchor, k)) is None by {
                assert(!v.already_spent@[k]);
                assert(v.opening_valid@[k] && inputs.proof_roots@[k]@ == anchor@ && v.path_valid@[k]);
            }
        }
    }
}

} // verus!
