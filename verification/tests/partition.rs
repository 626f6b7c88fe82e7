use evaporchain_execution::block::{GasBound, TxOutcome};
use evaporchain_execution::partition::{
    access_key_eq, extract_access_keys, outcomes_in_block_order, partition_shape,
    partition_transactions, per_partition_gas, runs_serially, split_lanes, AccessKey, TxAccess,
};

fn addr(byte: u8) -> [u8; 32] {
    let mut a = [0u8; 32];
    a[0] = byte;
    a
}

fn obj_id(byte: u8) -> [u8; 32] {
    let mut id = [0u8; 32];
    id[0] = byte;
    id
}

fn transfer(from: u8, to: u8) -> TxAccess {
    TxAccess::Transfer { from: addr(from), to: addr(to) }
}

#[test]
fn test_independent_transfers_partition_separately() {
    let txs = vec![transfer(1, 2), transfer(3, 4)];
    let partitions = partition_transactions(&txs);
    assert_eq!(partitions.len(), 2, "independent transfers should be in separate partitions");
}

#[test]
fn test_conflicting_transfers_same_partition() {
    let txs = vec![transfer(1, 2), transfer(2, 3)];
    let partitions = partition_transactions(&txs);
    assert_eq!(partitions.len(), 1, "conflicting transfers should merge");
    assert_eq!(partitions[0].len(), 2);
}

#[test]
fn test_transitive_conflict() {
    let txs = vec![transfer(1, 2), transfer(2, 3), transfer(4, 5)];
    let partitions = partition_transactions(&txs);
    assert_eq!(partitions.len(), 2);
    let sizes: Vec<usize> = partitions.iter().map(|p| p.len()).collect();
    assert!(sizes.contains(&2));
    assert!(sizes.contains(&1));
    assert_eq!(partitions, vec![vec![0, 1], vec![2]]);
}

#[test]
fn test_refresh_and_transfer_independent() {
    let txs = vec![transfer(1, 2), TxAccess::Refresh { object_id: obj_id(10) }];
    let partitions = partition_transactions(&txs);
    assert_eq!(partitions.len(), 2);
}

#[test]
fn test_same_object_refreshes_conflict() {
    let txs = vec![TxAccess::Refresh { object_id: obj_id(1) }, TxAccess::Refresh { object_id: obj_id(1) }];
    let partitions = partition_transactions(&txs);
    assert_eq!(partitions.len(), 1);
}

#[test]
fn test_empty_block() {
    let partitions = partition_transactions(&vec![]);
    assert_eq!(partitions.len(), 0);
    assert_eq!(partition_shape(&vec![]), (0, 0));
}

#[test]
fn test_analyze_parallelism_metric() {
    let txs: Vec<TxAccess> = (0..4u8).map(|i| transfer(i * 2 + 1, i * 2 + 2)).collect();
    let (partitions, max_size) = partition_shape(&txs);
    assert_eq!(partitions, 4);
    assert_eq!(max_size, 1);
    let ratio = txs.len() as f64 / max_size as f64;
    assert!((ratio - 4.0).abs() < f64::EPSILON);
}

#[test]
fn groups_follow_first_appearance_and_block_order() {
    // 0:A→B 1:C→D 2:E→F 3:D→E joins groups {1} and {2}; 4:B→G joins {0}.
    let txs = vec![transfer(1, 2), transfer(3, 4), transfer(5, 6), transfer(4, 5), transfer(2, 7)];
    let partitions = partition_transactions(&txs);
    assert_eq!(partitions, vec![vec![0, 4], vec![1, 2, 3]]);
    assert_eq!(partition_shape(&txs), (2, 3));
}

#[test]
fn engines_serialize_their_transactions() {
    let txs = vec![
        TxAccess::CallContract { caller: addr(1) },
        TxAccess::DeployContract { deployer: addr(2) },
        TxAccess::PrivateTransfer,
        TxAccess::Shield { from: addr(3) },
        TxAccess::UserOp { sender: addr(4), paymaster: Some(addr(5)) },
        TxAccess::Delegate { delegator: addr(5) },
    ];
    assert_eq!(partition_transactions(&txs), vec![vec![0, 1], vec![2, 3], vec![4, 5]]);
}

#[test]
fn access_keys_per_kind() {
    let keys = extract_access_keys(&TxAccess::UserOp { sender: addr(1), paymaster: None });
    assert_eq!(keys.len(), 1);
    let keys = extract_access_keys(&TxAccess::Refund { attacker: addr(1), victim: addr(2) });
    assert_eq!(keys.len(), 2);
    assert!(access_key_eq(&keys[1], &AccessKey::Account(addr(2))));
    assert!(!access_key_eq(&keys[1], &AccessKey::Object(addr(2))));
    let keys = extract_access_keys(&TxAccess::Deferred { submitter: addr(1) });
    assert!(access_key_eq(&keys[1], &AccessKey::TemporalEngine));
}

#[test]
fn serial_lane_split() {
    let txs = vec![
        transfer(1, 2),
        TxAccess::ValidatorExit { validator_address: addr(1) },
        TxAccess::Refund { attacker: addr(1), victim: addr(2) },
        TxAccess::ValidatorStake { validator_address: addr(3) },
        TxAccess::RotateValidatorKey { validator_address: addr(3) },
    ];
    assert!(runs_serially(&txs[1]));
    assert!(!runs_serially(&txs[3]));
    let (parallel, serial) = split_lanes(&txs);
    assert_eq!(parallel, vec![0, 3]);
    assert_eq!(serial, vec![1, 2, 4]);
}

#[test]
fn partition_budgets_never_exceed_the_block_limit() {
    assert_eq!(per_partition_gas(1_000_000, 3), 333_333);
    assert_eq!(per_partition_gas(1_000_000, 0), 1_000_000);
    assert_eq!(per_partition_gas(0, 5), u64::MAX);
    assert!(per_partition_gas(10, 3) * 3 <= 10);
    let _ = GasBound::Budget(per_partition_gas(10, 3));
}

#[test]
fn outcomes_return_to_block_order() {
    let o = |b: u8| TxOutcome { tx_hash: [b; 32], success: true, error: None, gas_used: b as u64 };
    let indexed = vec![(2usize, o(2)), (0, o(0)), (3, o(3)), (1, o(1))];
    let ordered = outcomes_in_block_order(&indexed);
    let hashes: Vec<u8> = ordered.iter().map(|x| x.tx_hash[0]).collect();
    assert_eq!(hashes, vec![0, 1, 2, 3]);
}
