use evaporchain_execution::temporal::{
    evaluate_guards, DecayWatcherEngine, DeferredQueue, DeferredTx, GuardEnv, ObjectFact,
    PhaseFact, TemporalError, TemporalGuard, MIN_DEFERRED_DEPOSIT, QUEUE_STORAGE_FEE,
};

fn addr(seed: u8) -> [u8; 32] {
    let mut a = [0u8; 32];
    a[0] = seed;
    a
}

fn make_deferred_tx(submitter: [u8; 32], guards: Vec<TemporalGuard>, inner_bytes: Vec<u8>) -> DeferredTx {
    DeferredTx {
        submitter,
        nonce: 0,
        deposit: 50_000,
        guards,
        inner_tx_bytes: inner_bytes,
        gas_limit: 100_000,
        signature: None,
        public_key: None,
    }
}

fn env_with(objects: Vec<ObjectFact>) -> GuardEnv {
    GuardEnv { objects, phases: vec![] }
}

fn object(id: [u8; 32], energy: u64) -> ObjectFact {
    ObjectFact { object_id: id, energy, is_ghost: false }
}

#[test]
fn test_deferred_submit_and_mature() {
    let mut queue = DeferredQueue::new();
    let tx = make_deferred_tx(addr(1), vec![TemporalGuard::AfterEpoch(5)], vec![0x01, 0x02]);
    queue.submit(tx).unwrap();
    assert_eq!(queue.len(), 1);
    let env = env_with(vec![]);
    let result = queue.process_epoch(3, &env);
    assert_eq!(result.matured, 0);
    assert_eq!(result.pending, 1);
    let result = queue.process_epoch(5, &env);
    assert_eq!(result.matured, 1);
    assert_eq!(result.matured_txs.len(), 1);
    assert_eq!(result.matured_txs[0].inner_tx_bytes, vec![0x01, 0x02]);
    assert_eq!(queue.len(), 0);
}

#[test]
fn test_deferred_expiry() {
    let mut queue = DeferredQueue::new();
    let tx = make_deferred_tx(addr(1), vec![TemporalGuard::AfterEpoch(10), TemporalGuard::BeforeEpoch(20)], vec![0xFF]);
    queue.submit(tx).unwrap();
    let result = queue.process_epoch(25, &env_with(vec![]));
    assert_eq!(result.expired, 1);
    assert_eq!(result.matured, 0);
    assert_eq!(result.refunds.len(), 1);
    assert_eq!(result.refunds[0].address, addr(1));
    assert_eq!(result.refunds[0].amount, 50_000 - QUEUE_STORAGE_FEE);
}

#[test]
fn test_deferred_energy_below_guard() {
    let mut queue = DeferredQueue::new();
    let obj_id = addr(99);
    let tx = make_deferred_tx(addr(1), vec![TemporalGuard::EnergyBelow(obj_id, 500)], vec![0xAA]);
    queue.submit(tx).unwrap();
    // Epoch 1: energy ~950, still above 500.
    let result = queue.process_epoch(1, &env_with(vec![object(obj_id, 950)]));
    assert_eq!(result.matured, 0);
    // Epoch 15: energy ~293, below 500.
    let result = queue.process_epoch(15, &env_with(vec![object(obj_id, 293)]));
    assert_eq!(result.matured, 1);
}

#[test]
fn test_deferred_object_evaporated_guard() {
    let mut queue = DeferredQueue::new();
    let obj_id = addr(50);
    let tx = make_deferred_tx(addr(1), vec![TemporalGuard::ObjectEvaporated(obj_id)], vec![0xBB]);
    queue.submit(tx).unwrap();
    let result = queue.process_epoch(1, &env_with(vec![object(obj_id, 100)]));
    assert_eq!(result.matured, 0);
    let ghost = ObjectFact { object_id: obj_id, energy: 0, is_ghost: true };
    let result = queue.process_epoch(2, &env_with(vec![ghost]));
    assert_eq!(result.matured, 1);
}

#[test]
fn test_deferred_reject_no_guards() {
    let mut queue = DeferredQueue::new();
    let tx = make_deferred_tx(addr(1), vec![], vec![0x01]);
    assert!(matches!(queue.submit(tx), Err(TemporalError::NoGuards)));
}

#[test]
fn test_deferred_reject_low_deposit() {
    let mut queue = DeferredQueue::new();
    let mut tx = make_deferred_tx(addr(1), vec![TemporalGuard::AfterEpoch(5)], vec![0x01]);
    tx.deposit = 100;
    assert!(matches!(queue.submit(tx), Err(TemporalError::InsufficientDeposit { .. })));
    let mut tx = make_deferred_tx(addr(1), vec![TemporalGuard::AfterEpoch(5)], vec![0x01]);
    tx.deposit = 100;
    assert_eq!(queue.submit(tx), Err(TemporalError::InsufficientDeposit { needed: MIN_DEFERRED_DEPOSIT, got: 100 }));
}

#[test]
fn test_deferred_multiple_guards_all_must_pass() {
    let mut queue = DeferredQueue::new();
    let obj_id = addr(42);
    let tx = make_deferred_tx(addr(1), vec![TemporalGuard::AfterEpoch(5), TemporalGuard::EnergyBelow(obj_id, 200)], vec![0xCC]);
    queue.submit(tx).unwrap();
    // Epoch 5: epoch OK, but energy = 750 > 200.
    let result = queue.process_epoch(5, &env_with(vec![object(obj_id, 750)]));
    assert_eq!(result.matured, 0);
    // Epoch 30: energy = 125, below 200.
    let result = queue.process_epoch(30, &env_with(vec![object(obj_id, 125)]));
    assert_eq!(result.matured, 1);
}

#[test]
fn deferred_queue_fires_in_order() {
    let mut queue = DeferredQueue::new();
    queue.submit(make_deferred_tx(addr(1), vec![TemporalGuard::AfterEpoch(9)], vec![1])).unwrap();
    queue.submit(make_deferred_tx(addr(2), vec![TemporalGuard::AfterEpoch(3)], vec![2])).unwrap();
    queue.submit(make_deferred_tx(addr(3), vec![TemporalGuard::AfterEpoch(3)], vec![3])).unwrap();
    let result = queue.process_epoch(10, &env_with(vec![]));
    let order: Vec<u8> = result.matured_txs.iter().map(|m| m.inner_tx_bytes[0]).collect();
    assert_eq!(order, vec![2, 3, 1]);
}

#[test]
fn guard_evaluation() {
    let env = GuardEnv {
        objects: vec![object(addr(1), 40)],
        phases: vec![PhaseFact { contract_id: 7, phase: "voting".into() }],
    };
    assert!(evaluate_guards(&vec![TemporalGuard::ContractInPhase(7, "voting".into())], 1, &env));
    assert!(!evaluate_guards(&vec![TemporalGuard::ContractInPhase(7, "closed".into())], 1, &env));
    assert!(!evaluate_guards(&vec![TemporalGuard::ContractInPhase(8, "voting".into())], 1, &env));
    assert!(evaluate_guards(&vec![TemporalGuard::EnergyAbove(addr(1), 39)], 1, &env));
    assert!(!evaluate_guards(&vec![TemporalGuard::EnergyAbove(addr(2), 0)], 1, &env));
    assert!(evaluate_guards(&vec![TemporalGuard::EnergyBelow(addr(2), 1)], 1, &env));
    assert!(evaluate_guards(&vec![TemporalGuard::BeforeEpoch(2)], 1, &env));
    assert!(!evaluate_guards(&vec![TemporalGuard::BeforeEpoch(1)], 1, &env));
    assert!(evaluate_guards(&vec![], 1, &env));
}

#[test]
fn test_watcher_fires_on_threshold() {
    let mut engine = DecayWatcherEngine::new();
    let obj_id = addr(10);
    engine.register(obj_id, 500, true, 42, "on_low_energy".into(), "{}".into(), 0).unwrap();
    assert_eq!(engine.active_count(), 1);
    let result = engine.process(&env_with(vec![object(obj_id, 950)]));
    assert_eq!(result.fired, 0);
    assert_eq!(engine.active_count(), 1);
    let result = engine.process(&env_with(vec![object(obj_id, 293)]));
    assert_eq!(result.fired, 1);
    assert_eq!(result.callbacks.len(), 1);
    assert_eq!(result.callbacks[0].contract_id, 42);
    assert_eq!(result.callbacks[0].method, "on_low_energy");
    assert_eq!(engine.active_count(), 0);
}

#[test]
fn test_watcher_fires_above_threshold() {
    let mut engine = DecayWatcherEngine::new();
    let obj_id = addr(20);
    engine.register(obj_id, 100, false, 99, "on_high_energy".into(), r#"{"alert": true}"#.into(), 0).unwrap();
    let result = engine.process(&env_with(vec![object(obj_id, 500)]));
    assert_eq!(result.fired, 1);
    assert_eq!(result.callbacks[0].args, r#"{"alert": true}"#);
}

#[test]
fn test_watcher_unregister() {
    let mut engine = DecayWatcherEngine::new();
    let id = engine.register(addr(1), 100, true, 1, "m".into(), "{}".into(), 0).unwrap();
    assert_eq!(engine.active_count(), 1);
    assert!(engine.unregister(id));
    assert_eq!(engine.active_count(), 0);
    assert!(!engine.unregister(id));
}

#[test]
fn test_watcher_evaporated_object() {
    let mut engine = DecayWatcherEngine::new();
    let obj_id = addr(30);
    engine.register(obj_id, 1, true, 50, "on_evap".into(), "{}".into(), 0).unwrap();
    let result = engine.process(&env_with(vec![]));
    assert_eq!(result.fired, 1);
}

#[test]
fn test_multiple_watchers_on_same_object() {
    let mut engine = DecayWatcherEngine::new();
    let obj_id = addr(40);
    engine.register(obj_id, 500, true, 1, "low".into(), "{}".into(), 0).unwrap();
    engine.register(obj_id, 100, true, 2, "critical".into(), "{}".into(), 0).unwrap();
    assert_eq!(engine.watchers_for_object(&obj_id).len(), 2);
    let result = engine.process(&env_with(vec![object(obj_id, 375)]));
    assert_eq!(result.fired, 1);
    assert_eq!(result.callbacks[0].method, "low");
    assert_eq!(engine.active_count(), 1);
    let result = engine.process(&env_with(vec![object(obj_id, 62)]));
    assert_eq!(result.fired, 1);
    assert_eq!(result.callbacks[0].method, "critical");
    assert_eq!(engine.watchers_for_object(&obj_id).len(), 0);
}
