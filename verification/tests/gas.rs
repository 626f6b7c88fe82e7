use evaporchain_execution::gas::{
    estimate_gas, estimate_private_transfer_gas, gas_priority_order, parallel_estimate_gas,
    sort_txs_by_gas_priority, TxKind, GAS_CREATE_OBJECT_BASE, GAS_DEPLOY_CONTRACT,
    GAS_DEPLOY_SCRIPT, GAS_REFUND, GAS_TRANSFER,
};

#[test]
fn create_object_gas_scales_with_data() {
    assert_eq!(estimate_gas(&TxKind::CreateObject { data_len: 0 }), GAS_CREATE_OBJECT_BASE);
    assert_eq!(estimate_gas(&TxKind::CreateObject { data_len: 100 }), 50_000 + 20_000);
    assert_eq!(estimate_gas(&TxKind::Blob { data_len: 10 }), 52_000);
}

#[test]
fn script_deploy_gas_scales_with_source_serially_only() {
    assert_eq!(estimate_gas(&TxKind::DeployScript { source_len: 50 }), 150_000 + 10_000);
    assert_eq!(parallel_estimate_gas(&TxKind::DeployScript { source_len: 50 }), GAS_DEPLOY_SCRIPT);
}

#[test]
fn per_byte_and_per_item_charges() {
    assert_eq!(estimate_gas(&TxKind::UserOp { call_data_len: 10 }), 30_000 + 160);
    assert_eq!(estimate_gas(&TxKind::UpgradeContract { bytecode_len: 10 }), 100_000 + 2_000);
    assert_eq!(estimate_gas(&TxKind::Deferred { guards: 3 }), 75_000 + 15_000);
    assert_eq!(estimate_private_transfer_gas(2, 3), 100_000 + 40_000 + 45_000);
    assert_eq!(estimate_gas(&TxKind::PrivateTransfer { inputs: 2, outputs: 3 }), 185_000);
}

#[test]
fn serial_charges_saturate() {
    assert_eq!(estimate_gas(&TxKind::CreateObject { data_len: usize::MAX }), u64::MAX);
    assert_eq!(estimate_private_transfer_gas(usize::MAX, 1), u64::MAX);
}

#[test]
fn parallel_and_serial_agree_on_fixed_kinds() {
    for k in [TxKind::Transfer, TxKind::Refund, TxKind::Governance, TxKind::DeployContract] {
        assert_eq!(parallel_estimate_gas(&k), estimate_gas(&k));
    }
    assert_eq!(parallel_estimate_gas(&TxKind::Refund), GAS_REFUND);
    assert_eq!(parallel_estimate_gas(&TxKind::CreateObject { data_len: 100 }), 70_000);
}

#[test]
fn gas_priority_sort_is_descending_and_stable() {
    let mut txs = vec![
        TxKind::Transfer,
        TxKind::DeployContract,
        TxKind::Refund,
        TxKind::Governance,
        TxKind::DeployContract,
        TxKind::Transfer,
    ];
    let order = gas_priority_order(&txs);
    assert_eq!(order, vec![1, 4, 3, 0, 5, 2]);
    sort_txs_by_gas_priority(&mut txs);
    assert_eq!(
        txs,
        vec![
            TxKind::DeployContract,
            TxKind::DeployContract,
            TxKind::Governance,
            TxKind::Transfer,
            TxKind::Transfer,
            TxKind::Refund,
        ]
    );
    let gas: Vec<u64> = txs.iter().map(estimate_gas).collect();
    assert!(gas.windows(2).all(|w| w[0] >= w[1]));
    assert_eq!(gas[0], GAS_DEPLOY_CONTRACT);
    assert_eq!(gas[3], GAS_TRANSFER);
}

#[test]
fn sorting_an_empty_block_is_a_no_op() {
    let mut txs: Vec<TxKind> = vec![];
    sort_txs_by_gas_priority(&mut txs);
    assert!(txs.is_empty());
}
