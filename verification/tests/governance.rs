use evaporchain_execution::errors::{ContractFault, ExecutionError};
use evaporchain_execution::governance::{
    cast_vote, check_proposal_admission, decide_proposal_outcome, execute_governance,
    finalize_expired_proposals, is_governable_param_key, new_proposal, validate_param_value,
    GovernanceAction, GovernanceError, GovernanceTx, ParamValueError, Proposal, ProposalStatus,
    GOVERNANCE_TIMELOCK_EPOCHS, MAX_VOTE_WEIGHT, QUORUM_MIN_TOTAL_WEIGHT, QUORUM_MIN_VOTERS,
};
use evaporchain_execution::ledger::Account;

fn proposal_with(votes_for: u64, votes_against: u64, voter_count: usize) -> Proposal {
    let mut voters = Vec::new();
    for i in 0..voter_count {
        let mut a = [0u8; 32];
        a[0] = i as u8;
        voters.push(a);
    }
    Proposal {
        proposal_id: 0,
        proposer: [0u8; 32],
        title: "t".into(),
        param_key: "block_gas_limit".into(),
        param_value: "1000000".into(),
        start_epoch: 0,
        end_epoch: 100,
        votes_for,
        votes_against,
        status: ProposalStatus::Active,
        created_at: 0,
        voters,
    }
}

fn account(byte: u8, balance: u64) -> Account {
    Account {
        address: [byte; 32],
        balance,
        nonce: 0,
        storage_deposit: 0,
        storage_bytes: 0,
        last_touched_epoch: 0,
    }
}

#[test]
fn test_decide_proposal_outcome_passes_super_majority_with_quorum() {
    let p = proposal_with(QUORUM_MIN_TOTAL_WEIGHT, 0, QUORUM_MIN_VOTERS);
    assert_eq!(decide_proposal_outcome(&p), ProposalStatus::Passed);
}

#[test]
fn test_decide_proposal_outcome_rejects_below_quorum_weight() {
    let p = proposal_with(QUORUM_MIN_TOTAL_WEIGHT - 1, 0, QUORUM_MIN_VOTERS);
    assert_eq!(decide_proposal_outcome(&p), ProposalStatus::Rejected);
}

#[test]
fn test_decide_proposal_outcome_rejects_below_min_voters() {
    let p = proposal_with(QUORUM_MIN_TOTAL_WEIGHT, 0, QUORUM_MIN_VOTERS - 1);
    assert_eq!(decide_proposal_outcome(&p), ProposalStatus::Rejected);
}

#[test]
fn test_decide_proposal_outcome_rejects_without_super_majority() {
    // for == 2*against → not strictly greater → rejected.
    let p = proposal_with(20_000_000, 10_000_000, QUORUM_MIN_VOTERS);
    assert_eq!(decide_proposal_outcome(&p), ProposalStatus::Rejected);
}

#[test]
fn test_validate_param_value_governable_keys() {
    assert!(validate_param_value("block_gas_limit", "500000").is_ok());
    assert!(validate_param_value("block_gas_limit", "999").is_err());
    assert!(validate_param_value("block_gas_limit", "abc").is_err());
    assert!(validate_param_value("base_fee_floor", "100").is_ok());
    assert!(validate_param_value("base_fee_ceiling", "1000").is_ok());
    assert!(validate_param_value("target_gas_utilization", "0.5").is_ok());
    assert!(validate_param_value("target_gas_utilization", "1.5").is_err());
    assert!(validate_param_value("target_gas_utilization", "-0.1").is_err());
}

#[test]
fn test_validate_param_value_upgrade_contract_pattern() {
    let good = "a".repeat(64);
    let bad_len = "a".repeat(63);
    let bad_hex = "g".repeat(64);
    assert!(validate_param_value("upgrade_contract:42", &good).is_ok());
    assert!(validate_param_value("upgrade_contract:42", &bad_len).is_err());
    assert!(validate_param_value("upgrade_contract:42", &bad_hex).is_err());
}

#[test]
fn test_validate_param_value_unknown_key_rejected() {
    assert!(validate_param_value("chain_id", "evaporchain-evil").is_err());
    assert!(validate_param_value("total_supply", "999999").is_err());
}

#[test]
fn test_is_governable_param_key() {
    assert!(is_governable_param_key("block_gas_limit"));
    assert!(is_governable_param_key("base_fee_floor"));
    assert!(is_governable_param_key("upgrade_contract:0"));
    assert!(is_governable_param_key("upgrade_contract:99999"));
    assert!(!is_governable_param_key("chain_id"));
    assert!(!is_governable_param_key(""));
    assert!(!is_governable_param_key("upgrade_contract")); // missing colon
}

#[test]
fn utilization_boundaries_follow_f64_rounding() {
    let ok = |v: &str| validate_param_value("target_gas_utilization", v).is_ok();
    assert!(ok("0"));
    assert!(ok("1"));
    assert!(ok("1.0"));
    assert!(ok("-0"));
    assert!(ok("-0.0"));
    assert!(ok("0e-999999999999999999999999"));
    assert!(ok("+.25"));
    assert!(ok("1E0"));
    assert!(ok("100e-2"));
    // 1 + 2^-53 rounds to 1.0; anything above it rounds past 1.0.
    assert!(ok("1.00000000000000011102230246251565404236316680908203125"));
    assert!(!ok("1.00000000000000011102230246251565404236316680908203126"));
    assert!(!ok("1.0000000000000003"));
    // Tiny negatives round to -0.0.
    assert!(ok("-1e-400"));
    assert!(!ok("-1e-300"));
    assert!(!ok("1e400"));
    assert!(!ok("inf"));
    assert!(!ok("-Infinity"));
    assert!(!ok("NaN"));
    assert_eq!(
        validate_param_value("target_gas_utilization", "abc"),
        Err(ParamValueError::UtilizationNotNumber)
    );
    assert_eq!(
        validate_param_value("target_gas_utilization", "2"),
        Err(ParamValueError::UtilizationOutOfRange)
    );
    assert_eq!(
        validate_param_value("target_gas_utilization", "1e"),
        Err(ParamValueError::UtilizationNotNumber)
    );
    assert_eq!(
        validate_param_value("target_gas_utilization", "."),
        Err(ParamValueError::UtilizationNotNumber)
    );
    assert_eq!(
        validate_param_value("target_gas_utilization", ""),
        Err(ParamValueError::UtilizationNotNumber)
    );
}

#[test]
fn utilization_agrees_with_float_parsing() {
    let samples = [
        "0.5", "0.999999999999999999", "1.0000000000000001", "1.00000000000000022",
        "-0.0000001", "3e-1", "10e-1", "0.1e1", "5e-324", "-5e-324", "-2e-324", "-3e-324",
        "1.", ".5", "00000.00001", "+0", "1e-0", "0.00000000000000000000000000000001e31",
    ];
    for s in samples {
        let expected = matches!(s.parse::<f64>(), Ok(v) if (0.0..=1.0).contains(&v));
        assert_eq!(
            validate_param_value("target_gas_utilization", s).is_ok(),
            expected,
            "{s}"
        );
    }
}

#[test]
fn proposal_admission_rules() {
    assert_eq!(check_proposal_admission("t", "block_gas_limit", "500000", 10), Ok(()));
    let long_title = "x".repeat(201);
    assert_eq!(
        check_proposal_admission(&long_title, "block_gas_limit", "500000", 10),
        Err(GovernanceError::TitleTooLong { len: 201 })
    );
    assert_eq!(
        check_proposal_admission("t", "block_gas_limit", "500000", 9),
        Err(GovernanceError::VotingEpochsOutOfRange { voting_epochs: 9 })
    );
    assert_eq!(
        check_proposal_admission("t", "chain_id", "x", 10),
        Err(GovernanceError::KeyNotGovernable)
    );
    assert_eq!(
        check_proposal_admission("t", "block_gas_limit", "999", 10),
        Err(GovernanceError::InvalidParamValue(ParamValueError::GasLimitOutOfRange { value: 999 }))
    );
}

#[test]
fn votes_are_capped_and_counted_once() {
    let mut p = new_proposal(0, [9; 32], "t".into(), "block_gas_limit".into(), "500000".into(), 0, 10);
    assert_eq!(cast_vote(&mut p, [1; 32], true, u64::MAX, 5), Ok(()));
    assert_eq!(p.votes_for, MAX_VOTE_WEIGHT);
    assert_eq!(cast_vote(&mut p, [1; 32], true, 1, 5), Err(GovernanceError::DuplicateVote));
    assert_eq!(p.votes_for, MAX_VOTE_WEIGHT);
    assert_eq!(cast_vote(&mut p, [2; 32], false, 7, 5), Ok(()));
    assert_eq!(p.votes_against, 7);
    assert_eq!(p.voters.len(), 2);
}

#[test]
fn late_vote_decides_the_proposal() {
    let mut p = proposal_with(QUORUM_MIN_TOTAL_WEIGHT, 0, QUORUM_MIN_VOTERS);
    assert_eq!(cast_vote(&mut p, [200; 32], true, 5, 101), Err(GovernanceError::VotingEnded));
    assert_eq!(p.status, ProposalStatus::Passed);
    assert_eq!(cast_vote(&mut p, [201; 32], true, 5, 101), Err(GovernanceError::ProposalNotActive));
}

#[test]
fn passed_proposals_wait_for_the_timelock() {
    let mut ps = vec![proposal_with(QUORUM_MIN_TOTAL_WEIGHT, 0, QUORUM_MIN_VOTERS)];
    let params = finalize_expired_proposals(&mut ps, 101);
    assert!(params.is_empty());
    assert_eq!(ps[0].status, ProposalStatus::Passed);
    let params = finalize_expired_proposals(&mut ps, 100 + GOVERNANCE_TIMELOCK_EPOCHS - 1);
    assert!(params.is_empty());
    let params = finalize_expired_proposals(&mut ps, 100 + GOVERNANCE_TIMELOCK_EPOCHS);
    assert_eq!(params.len(), 1);
    assert_eq!(params[0].key, "block_gas_limit");
    assert_eq!(params[0].value, "1000000");
    assert_eq!(ps[0].status, ProposalStatus::Executed);
}

#[test]
fn governance_transactions_create_and_vote() {
    let mut sender = account(1, 5_000_000);
    let mut store: Vec<Proposal> = Vec::new();
    let create = GovernanceTx {
        sender: [1; 32],
        nonce: 0,
        action: GovernanceAction::CreateProposal {
            title: "raise limit".into(),
            param_key: "block_gas_limit".into(),
            param_value: "2000000".into(),
            voting_epochs: 20,
        },
    };
    assert_eq!(execute_governance(&mut sender, &mut store, create, 7), Ok(()));
    assert_eq!(sender.nonce, 1);
    assert_eq!(store.len(), 1);
    assert_eq!(store[0].proposal_id, 0);
    assert_eq!(store[0].end_epoch, 27);
    let vote = GovernanceTx { sender: [1; 32], nonce: 1, action: GovernanceAction::CastVote { proposal_id: 0, vote: true } };
    assert_eq!(execute_governance(&mut sender, &mut store, vote, 8), Ok(()));
    assert_eq!(store[0].votes_for, 5_000_000);
    let missing = GovernanceTx { sender: [1; 32], nonce: 2, action: GovernanceAction::CastVote { proposal_id: 3, vote: true } };
    assert_eq!(
        execute_governance(&mut sender, &mut store, missing, 8),
        Err(ExecutionError::ContractError(ContractFault::Governance(GovernanceError::ProposalNotFound { proposal_id: 3 })))
    );
    let stale = GovernanceTx { sender: [1; 32], nonce: 0, action: GovernanceAction::CastVote { proposal_id: 0, vote: true } };
    assert_eq!(
        execute_governance(&mut sender, &mut store, stale, 8),
        Err(ExecutionError::InvalidNonce { expected: 3, got: 0 })
    );
}
