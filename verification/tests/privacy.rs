use evaporchain_execution::gas::{
    estimate_private_transfer_gas, GAS_PRIVATE_TRANSFER_BASE, GAS_PRIVATE_TRANSFER_PER_INPUT,
    GAS_PRIVATE_TRANSFER_PER_OUTPUT,
};
use evaporchain_execution::ledger::Account;
use evaporchain_execution::privacy::{
    check_private_transfer, check_unshield, checked_sum, finish_private_transfer, finish_unshield,
    shield_credit_pool, shield_debit, tick_pnt_phase, InputVerdicts, PhaseClock, PrivacyExecError,
    PrivateTransferTx, ShieldTx, ShieldedNote, SpentInputs, UnshieldTx, WitnessField,
    PNT_DEFAULT_PHASE_INTERVAL_EPOCHS,
};

fn test_blinding(seed: u8) -> [u8; 32] {
    let mut b = [0u8; 32];
    b[0] = seed;
    b[31] = seed.wrapping_mul(7);
    b
}

fn account(byte: u8, balance: u64) -> Account {
    Account {
        address: [byte; 32],
        balance,
        nonce: 0,
        storage_deposit: 0,
        storage_bytes: 0,
        last_touched_epoch: 0,
    }
}

fn shield_tx(amount: u64, nonce: u64) -> ShieldTx {
    ShieldTx { from: [1; 32], amount, nonce, note_owner_hash: test_blinding(10), value_blinding: test_blinding(20) }
}

fn inputs(nullifiers: Vec<[u8; 32]>, amounts: Vec<u64>, root: [u8; 32]) -> SpentInputs {
    let n = nullifiers.len();
    SpentInputs {
        nullifiers,
        amounts,
        blindings: vec![[3; 32]; n],
        value_commitments: vec![[4; 32]; n],
        note_commitments: vec![[5; 32]; n],
        proof_roots: vec![root; n],
    }
}

fn verdicts(n: usize) -> InputVerdicts {
    InputVerdicts { already_spent: vec![false; n], opening_valid: vec![true; n], path_valid: vec![true; n] }
}

#[test]
fn test_gas_estimation() {
    let gas = estimate_private_transfer_gas(2, 3);
    assert_eq!(
        gas,
        GAS_PRIVATE_TRANSFER_BASE + 2 * GAS_PRIVATE_TRANSFER_PER_INPUT + 3 * GAS_PRIVATE_TRANSFER_PER_OUTPUT
    );
}

#[test]
fn gas_estimator_saturates_on_pathological_input() {
    let huge: u64 = u64::MAX / GAS_PRIVATE_TRANSFER_PER_INPUT + 1;
    let prod = GAS_PRIVATE_TRANSFER_PER_INPUT.saturating_mul(huge);
    assert_eq!(prod, u64::MAX, "saturating_mul must clamp at u64::MAX");

    let sum = GAS_PRIVATE_TRANSFER_BASE
        .saturating_add(u64::MAX)
        .saturating_add(GAS_PRIVATE_TRANSFER_PER_OUTPUT);
    assert_eq!(sum, u64::MAX, "saturating_add must clamp at u64::MAX");

    assert_eq!(estimate_private_transfer_gas(usize::MAX, 0), u64::MAX);
    assert_eq!(estimate_private_transfer_gas(0, usize::MAX), u64::MAX);
}

#[test]
fn test_shield_basic() {
    let mut sender = account(1, 10_000);
    let mut pool = 0u64;
    assert_eq!(shield_debit(&mut sender, &shield_tx(5_000, 0), 10_000, 1), Ok(()));
    let note = ShieldedNote { tree_index: 0, note_commitment: [8; 32], value_commitment: [9; 32] };
    let result = shield_credit_pool(&mut pool, 5_000, &note).unwrap();
    assert_eq!(sender.balance, 5_000);
    assert_eq!(sender.nonce, 1);
    assert_eq!(sender.last_touched_epoch, 1);
    assert_eq!(pool, 5_000);
    assert_eq!(result.notes_created, 1);
    assert_eq!(result.pool_delta, 5_000);
    assert_eq!(result.tree_index, Some(0));
    assert_eq!(result.note_commitment, Some([8; 32]));
}

#[test]
fn test_shield_insufficient_balance() {
    let mut sender = account(1, 1_000);
    let err = shield_debit(&mut sender, &shield_tx(5_000, 0), 1_000, 1).unwrap_err();
    assert!(matches!(err, PrivacyExecError::InsufficientBalanceForShield { .. }));
    assert_eq!(sender.balance, 1_000);
}

#[test]
fn test_shield_zero_amount() {
    let mut sender = account(1, 10_000);
    assert!(matches!(shield_debit(&mut sender, &shield_tx(0, 0), 10_000, 1), Err(PrivacyExecError::ZeroShieldAmount)));
}

#[test]
fn test_shield_nonce_check() {
    let mut sender = account(1, 10_000);
    assert!(matches!(
        shield_debit(&mut sender, &shield_tx(1_000, 5), 10_000, 1),
        Err(PrivacyExecError::ShieldNonceMismatch { expected: 0, got: 5 })
    ));
}

#[test]
fn shield_pool_overflow_is_refused() {
    let mut pool = u64::MAX - 1;
    let note = ShieldedNote { tree_index: 3, note_commitment: [0; 32], value_commitment: [0; 32] };
    assert_eq!(shield_credit_pool(&mut pool, 2, &note), Err(PrivacyExecError::BalanceOverflow));
    assert_eq!(pool, u64::MAX - 1);
}

#[test]
fn test_tick_pnt_phase_first_call_fires() {
    let mut clock = PhaseClock { interval_epochs: 100, last_phase_epoch: None, root_at_last_advance: None };
    assert!(tick_pnt_phase(&mut clock, 7, [1; 32]), "first tick must fire");
    assert_eq!(clock.last_phase_epoch, Some(7));
}

#[test]
fn test_tick_pnt_phase_respects_cadence() {
    let mut clock = PhaseClock { interval_epochs: 100, last_phase_epoch: None, root_at_last_advance: None };
    assert!(tick_pnt_phase(&mut clock, 0, [0; 32]), "first tick fires unconditionally");
    let root_after_shield = [1; 32];
    assert!(!tick_pnt_phase(&mut clock, 50, root_after_shield), "50 < 0+100 → no fire");
    assert!(!tick_pnt_phase(&mut clock, 99, root_after_shield), "99 < 0+100 → no fire");
    assert!(tick_pnt_phase(&mut clock, 100, root_after_shield), "100 >= 0+100 AND root changed → fires");
    let root_after_second_shield = [2; 32];
    assert!(!tick_pnt_phase(&mut clock, 150, root_after_second_shield), "150 < 100+100 → no fire");
    assert!(tick_pnt_phase(&mut clock, 200, root_after_second_shield));
}

#[test]
fn test_tick_pnt_phase_no_fire_when_root_unchanged() {
    let mut clock = PhaseClock { interval_epochs: 100, last_phase_epoch: None, root_at_last_advance: None };
    let empty_root = [0; 32];
    assert!(tick_pnt_phase(&mut clock, 0, empty_root));
    for epoch in [100u64, 200, 1_000, 10_000, 100_000] {
        assert!(!tick_pnt_phase(&mut clock, epoch, empty_root), "epoch {epoch}: root unchanged → MUST NOT fire");
    }
    assert_eq!(clock.last_phase_epoch, Some(0));
}

#[test]
fn test_tick_pnt_phase_zero_interval_disables() {
    let mut clock = PhaseClock { interval_epochs: 0, last_phase_epoch: None, root_at_last_advance: None };
    assert!(!tick_pnt_phase(&mut clock, 0, [1; 32]));
    assert!(!tick_pnt_phase(&mut clock, u64::MAX, [2; 32]));
    assert_eq!(clock.last_phase_epoch, None);
    assert_eq!(PNT_DEFAULT_PHASE_INTERVAL_EPOCHS, 100);
}

fn unshield(amount: u64, nfs: Vec<[u8; 32]>, amounts: Vec<u64>, anchor: [u8; 32]) -> UnshieldTx {
    UnshieldTx {
        to: [2; 32],
        amount,
        anchor,
        inputs: inputs(nfs, amounts, anchor),
        change_commitments: vec![],
        output_blindings: vec![],
        proof_epochs: vec![],
    }
}

#[test]
fn test_unshield_real_full_amount() {
    let root = [7; 32];
    let tx = unshield(5_000, vec![[1; 32]], vec![5_000], root);
    assert_eq!(check_unshield(&tx, &verdicts(1), &root, 1, true), Ok(5_000));
    let mut receiver = account(2, 0);
    let mut pool = 5_000u64;
    let r = finish_unshield(&mut receiver, &mut pool, &tx, 3).unwrap();
    assert_eq!(receiver.balance, 5_000);
    assert_eq!(receiver.last_touched_epoch, 3);
    assert_eq!(pool, 0);
    assert_eq!(r.pool_delta, -5_000);
    assert_eq!(r.nullifiers_spent, 1);
    assert_eq!(r.notes_created, 0);
}

#[test]
fn test_unshield_double_spend_rejected() {
    let root = [7; 32];
    let tx = unshield(5_000, vec![[1; 32]], vec![5_000], root);
    let mut v = verdicts(1);
    v.already_spent[0] = true;
    assert_eq!(check_unshield(&tx, &v, &root, 1, true), Err(PrivacyExecError::DoubleSpend([1; 32])));
}

#[test]
fn test_unshield_stale_anchor_rejected() {
    let tx = unshield(5_000, vec![[1; 32]], vec![5_000], [7; 32]);
    assert_eq!(check_unshield(&tx, &verdicts(1), &[8; 32], 1, true), Err(PrivacyExecError::StaleAnchor));
}

#[test]
fn test_unshield_invalid_balance_binding_rejected() {
    let root = [7; 32];
    let tx = unshield(5_000, vec![[1; 32]], vec![5_000], root);
    assert_eq!(check_unshield(&tx, &verdicts(1), &root, 1, false), Err(PrivacyExecError::InvalidBalanceBinding));
}

#[test]
fn test_unshield_invalid_commitment_opening_rejected() {
    let root = [7; 32];
    let tx = unshield(5_000, vec![[1; 32], [2; 32]], vec![2_500, 2_500], root);
    let mut v = verdicts(2);
    v.opening_valid[1] = false;
    assert_eq!(check_unshield(&tx, &v, &root, 1, true), Err(PrivacyExecError::InvalidCommitmentOpening { index: 1 }));
}

#[test]
fn test_unshield_invalid_merkle_proof_rejected() {
    let root = [7; 32];
    let tx = unshield(5_000, vec![[1; 32]], vec![5_000], root);
    let mut v = verdicts(1);
    v.path_valid[0] = false;
    assert_eq!(check_unshield(&tx, &v, &root, 1, true), Err(PrivacyExecError::InvalidMerkleProof { index: 0 }));
}

#[test]
fn test_unshield_duplicate_nullifier_in_tx_rejected() {
    let root = [7; 32];
    let tx = unshield(10_000, vec![[1; 32], [1; 32]], vec![5_000, 5_000], root);
    assert_eq!(check_unshield(&tx, &verdicts(2), &root, 1, true), Err(PrivacyExecError::DoubleSpend([1; 32])));
}

#[test]
fn unshield_shape_checks_in_order() {
    let root = [7; 32];
    assert_eq!(
        check_unshield(&unshield(0, vec![[1; 32]], vec![5], root), &verdicts(1), &root, 1, true),
        Err(PrivacyExecError::ZeroUnshieldAmount)
    );
    assert_eq!(
        check_unshield(&unshield(5, vec![], vec![], root), &verdicts(0), &root, 1, true),
        Err(PrivacyExecError::NoInputs)
    );
    assert_eq!(
        check_unshield(&unshield(5, vec![[1; 32]], vec![], root), &verdicts(1), &root, 1, true),
        Err(PrivacyExecError::MissingWitnessData { field: WitnessField::InputAmounts, expected: 1, got: 0 })
    );
    let mut tx = unshield(5, vec![[1; 32]], vec![5], root);
    tx.proof_epochs = vec![1, 9];
    assert_eq!(
        check_unshield(&tx, &verdicts(1), &root, 3, true),
        Err(PrivacyExecError::FutureEpochInDecayProof { epoch: 9, current: 3 })
    );
    let mut tx = unshield(5, vec![[1; 32]], vec![5], root);
    tx.inputs.proof_roots = vec![[6; 32]];
    assert_eq!(
        check_unshield(&tx, &verdicts(1), &root, 3, true),
        Err(PrivacyExecError::MerkleProofAnchorMismatch { index: 0 })
    );
    assert_eq!(
        check_unshield(&unshield(6, vec![[1; 32]], vec![5], root), &verdicts(1), &root, 1, true),
        Err(PrivacyExecError::UnshieldBalanceMismatch)
    );
    assert_eq!(
        check_unshield(&unshield(6, vec![[1; 32], [2; 32]], vec![u64::MAX, 1], root), &verdicts(2), &root, 1, true),
        Err(PrivacyExecError::BalanceOverflow)
    );
}

fn private_transfer(nfs: Vec<[u8; 32]>, amounts: Vec<u64>, outputs: Vec<u64>, fee: u64, root: [u8; 32]) -> PrivateTransferTx {
    let n_out = outputs.len();
    PrivateTransferTx {
        anchor: root,
        inputs: inputs(nfs, amounts, root),
        output_commitments: vec![[6; 32]; n_out],
        output_amounts: outputs,
        output_blindings: vec![[7; 32]; n_out],
        fee,
        proof_epochs: vec![],
    }
}

#[test]
fn test_private_transfer_real() {
    let root = [7; 32];
    let tx = private_transfer(vec![[1; 32]], vec![5_000], vec![3_000, 1_900], 100, root);
    assert_eq!(check_private_transfer(&tx, &verdicts(1), &vec![true, true], &root, 1, true), Ok((5_000, 4_900)));
    let mut pool = 10_000u64;
    let r = finish_private_transfer(&mut pool, &tx);
    assert_eq!(pool, 9_900);
    assert_eq!(r.nullifiers_spent, 1);
    assert_eq!(r.fee_collected, 100);
    assert_eq!(r.pool_delta, -100);
    assert_eq!(r.notes_created, 2);
}

#[test]
fn test_private_transfer_double_spend_rejected() {
    let root = [7; 32];
    let tx = private_transfer(vec![[1; 32]], vec![5_000], vec![5_000], 0, root);
    let mut v = verdicts(1);
    v.already_spent[0] = true;
    assert_eq!(check_private_transfer(&tx, &v, &vec![true], &root, 1, true), Err(PrivacyExecError::DoubleSpend([1; 32])));
}

#[test]
fn test_private_transfer_duplicate_nullifier_in_tx_rejected() {
    let root = [7; 32];
    let tx = private_transfer(vec![[1; 32], [1; 32]], vec![5_000, 5_000], vec![10_000], 0, root);
    assert_eq!(
        check_private_transfer(&tx, &verdicts(2), &vec![true], &root, 1, true),
        Err(PrivacyExecError::DoubleSpend([1; 32]))
    );
}

#[test]
fn test_private_transfer_no_inputs_rejected() {
    let root = [7; 32];
    let tx = private_transfer(vec![], vec![], vec![5], 0, root);
    assert_eq!(check_private_transfer(&tx, &verdicts(0), &vec![true], &root, 1, true), Err(PrivacyExecError::NoInputs));
}

#[test]
fn test_private_transfer_no_outputs_rejected() {
    let root = [7; 32];
    let tx = private_transfer(vec![[1; 32]], vec![5], vec![], 0, root);
    assert_eq!(check_private_transfer(&tx, &verdicts(1), &vec![], &root, 1, true), Err(PrivacyExecError::NoOutputs));
}

#[test]
fn test_private_transfer_invalid_balance_binding_rejected() {
    let root = [7; 32];
    let tx = private_transfer(vec![[1; 32]], vec![5_000], vec![5_000], 0, root);
    assert_eq!(
        check_private_transfer(&tx, &verdicts(1), &vec![true], &root, 1, false),
        Err(PrivacyExecError::InvalidBalanceBinding)
    );
}

#[test]
fn test_private_transfer_invalid_output_commitment_rejected() {
    let root = [7; 32];
    let tx = private_transfer(vec![[1; 32]], vec![5_000], vec![2_500, 2_500], 0, root);
    assert_eq!(
        check_private_transfer(&tx, &verdicts(1), &vec![true, false], &root, 1, true),
        Err(PrivacyExecError::InvalidOutputCommitment { index: 1 })
    );
}

#[test]
fn test_private_transfer_invalid_merkle_proof_rejected() {
    let root = [7; 32];
    let tx = private_transfer(vec![[1; 32]], vec![5_000], vec![5_000], 0, root);
    let mut v = verdicts(1);
    v.path_valid[0] = false;
    assert_eq!(
        check_private_transfer(&tx, &v, &vec![true], &root, 1, true),
        Err(PrivacyExecError::InvalidMerkleProof { index: 0 })
    );
}

#[test]
fn test_private_transfer_balance_conservation_failure() {
    let root = [7; 32];
    let tx = private_transfer(vec![[1; 32]], vec![5_000], vec![5_000], 1, root);
    assert_eq!(
        check_private_transfer(&tx, &verdicts(1), &vec![true], &root, 1, true),
        Err(PrivacyExecError::UnshieldBalanceMismatch)
    );
}

#[test]
fn checked_sums() {
    assert_eq!(checked_sum(&vec![]), Some(0));
    assert_eq!(checked_sum(&vec![1, 2, 3]), Some(6));
    assert_eq!(checked_sum(&vec![u64::MAX, 0]), Some(u64::MAX));
    assert_eq!(checked_sum(&vec![u64::MAX, 1, 0]), None);
}

#[test]
fn test_multiple_shields() {
    let mut sender = account(1, 10_000);
    let mut pool = 0u64;
    let mut notes = 0usize;
    for i in 0..5u64 {
        let transferable = sender.balance;
        assert_eq!(shield_debit(&mut sender, &shield_tx(1_000, i), transferable, 1), Ok(()));
        let note = ShieldedNote {
            tree_index: notes,
            note_commitment: test_blinding(90 + i as u8),
            value_commitment: test_blinding(20 + i as u8),
        };
        let r = shield_credit_pool(&mut pool, 1_000, &note).unwrap();
        notes += r.notes_created;
        assert_eq!(r.tree_index, Some(i as usize));
    }
    assert_eq!(sender.balance, 5_000);
    assert_eq!(pool, 5_000);
    assert_eq!(notes, 5);
    assert_eq!(sender.nonce, 5);
}
