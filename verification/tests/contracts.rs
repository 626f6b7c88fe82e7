use evaporchain_execution::contracts::{
    parse_template, refresh_route, script_args_are_empty, CallDepth, ContractTemplate,
    RefreshRoute, MAX_CALL_DEPTH,
};
use evaporchain_execution::errors::{ContractFault, ExecutionError};

#[test]
fn every_builtin_template_parses() {
    let names = [
        ("DecayingToken", ContractTemplate::DecayingToken),
        ("MortalNFT", ContractTemplate::MortalNFT),
        ("ThermodynamicEscrow", ContractTemplate::ThermodynamicEscrow),
        ("DecayingAuction", ContractTemplate::DecayingAuction),
        ("StakingPool", ContractTemplate::StakingPool),
        ("DAOVote", ContractTemplate::DAOVote),
        ("TemporalContract", ContractTemplate::TemporalContract),
    ];
    for (name, t) in names {
        assert_eq!(parse_template(name), Ok(t));
    }
}

#[test]
fn unknown_template_is_refused() {
    let unknown = Err(ExecutionError::ContractError(ContractFault::UnknownTemplate));
    assert_eq!(parse_template("decayingtoken"), unknown);
    assert_eq!(parse_template("DecayingToken "), unknown);
    assert_eq!(parse_template(""), unknown);
}

#[test]
fn script_args_shortcut() {
    assert!(script_args_are_empty(""));
    assert!(script_args_are_empty("[]"));
    assert!(!script_args_are_empty("[ ]"));
    assert!(!script_args_are_empty("[1]"));
}

#[test]
fn call_depth_guard_refuses_at_limit() {
    let mut d = CallDepth::new();
    for _ in 0..MAX_CALL_DEPTH {
        assert_eq!(d.enter(), Ok(()));
    }
    assert_eq!(d.depth, MAX_CALL_DEPTH);
    assert_eq!(d.enter(), Err(ExecutionError::CallDepthExceeded(64)));
    assert_eq!(d.depth, MAX_CALL_DEPTH);
    d.leave();
    assert_eq!(d.depth, MAX_CALL_DEPTH - 1);
}

#[test]
fn call_depth_enter_then_leave_restores() {
    let mut d = CallDepth { depth: 5 };
    d.enter().unwrap();
    d.leave();
    assert_eq!(d.depth, 5);
    let mut z = CallDepth::new();
    z.leave();
    assert_eq!(z.depth, 0, "leaving at zero saturates");
}

#[test]
fn refresh_prefers_live_object_then_ghost() {
    assert_eq!(refresh_route(true, true), RefreshRoute::Refresh);
    assert_eq!(refresh_route(false, true), RefreshRoute::Resurrect);
    assert_eq!(refresh_route(false, false), RefreshRoute::NotFound);
}
