use evaporchain_execution::crossshard::execute_cross_shard_messages;
use evaporchain_execution::overlay::StateOverlay;
use evaporchain_execution::crossshard::{
    cross_shard_receipt, settle_cross_shard_transfer, settle_cross_shard_transfer_to_self,
    widen_address, CrossShardMessage, ShardPayload,
};
use evaporchain_execution::ledger::Account;

fn addr(byte: u8) -> [u8; 32] {
    let mut a = [0u8; 32];
    a[0] = byte;
    a
}

fn short(a: &[u8; 32]) -> [u8; 20] {
    let mut s = [0u8; 20];
    s.copy_from_slice(&a[..20]);
    s
}

fn account(byte: u8, balance: u64) -> Account {
    Account {
        address: addr(byte),
        balance,
        nonce: 0,
        storage_deposit: 0,
        storage_bytes: 0,
        last_touched_epoch: 0,
    }
}

fn message(target: [u8; 20], payload: ShardPayload) -> CrossShardMessage {
    CrossShardMessage {
        id: 0,
        from_shard: 0,
        to_shard: 1,
        target_object: target,
        payload,
        target_energy: 100,
        timestamp: 1,
    }
}

#[test]
fn test_cross_shard_transfer() {
    let mut from = account(1, 1_000_000);
    let mut to = account(2, 0);
    let msg = message(
        short(&addr(2)),
        ShardPayload::Transfer { from: short(&addr(1)), amount: 500 },
    );
    let receipt = cross_shard_receipt(&msg, from.balance, false, 10);
    assert!(receipt.success);
    settle_cross_shard_transfer(&mut from, &mut to, 500, 10);
    assert_eq!(from.balance, 999_500);
    assert_eq!(to.balance, 500);
    assert_eq!(receipt.processed_at, 10);
    assert_eq!(receipt.to_shard, 1);
}

#[test]
fn test_cross_shard_transfer_insufficient_balance() {
    let from = account(1, 100);
    let msg = message(
        short(&addr(2)),
        ShardPayload::Transfer { from: short(&addr(1)), amount: 500 },
    );
    let receipt = cross_shard_receipt(&msg, from.balance, false, 10);
    assert!(!receipt.success);
    assert_eq!(receipt.result_hash, [0u8; 32]);
    assert_eq!(from.balance, 100);
}

#[test]
fn test_cross_shard_eviction() {
    let oid = addr(1);
    let msg = message(short(&oid), ShardPayload::Eviction { reason: "low energy".into() });
    let receipt = cross_shard_receipt(&msg, 0, true, 10);
    assert!(receipt.success, "a present target object is evicted");
    let missing = cross_shard_receipt(&msg, 0, false, 10);
    assert!(!missing.success);
}

#[test]
fn transfer_digest_hashes_the_parts_in_turn() {
    let msg = message(
        short(&addr(2)),
        ShardPayload::Transfer { from: short(&addr(1)), amount: 500 },
    );
    let receipt = cross_shard_receipt(&msg, 500, false, 3);
    let mut h = blake3::Hasher::new();
    h.update(&addr(1));
    h.update(&addr(2));
    h.update(&500u64.to_le_bytes());
    assert_eq!(receipt.result_hash, *h.finalize().as_bytes());
    assert_ne!(receipt.result_hash, [0u8; 32]);
}

#[test]
fn reference_and_query_digests() {
    let source = short(&addr(7));
    let msg = message([0u8; 20], ShardPayload::Reference { source_object: source });
    let present = cross_shard_receipt(&msg, 0, true, 1);
    let absent = cross_shard_receipt(&msg, 0, false, 1);
    assert!(present.success);
    assert!(!absent.success);
    let mut h = blake3::Hasher::new();
    h.update(&source);
    h.update(&[1u8]);
    assert_eq!(present.result_hash, *h.finalize().as_bytes());
    assert_ne!(present.result_hash, absent.result_hash);

    let query = message([0u8; 20], ShardPayload::Query { key: "balance".to_string() });
    let r = cross_shard_receipt(&query, 0, false, 1);
    assert!(r.success);
    assert_eq!(r.result_hash, *blake3::hash(b"balance").as_bytes());
}

#[test]
fn widened_address_pads_with_zeros() {
    let mut s = [0u8; 20];
    s[0] = 9;
    s[19] = 4;
    let w = widen_address(&s);
    assert_eq!(&w[..20], &s[..]);
    assert_eq!(&w[20..], &[0u8; 12][..]);
}

#[test]
fn self_transfer_only_touches_the_account() {
    let mut a = account(1, 70);
    settle_cross_shard_transfer_to_self(&mut a, 50, 9);
    assert_eq!(a.balance, 70);
    assert_eq!(a.last_touched_epoch, 9);
}

#[test]
fn message_list_applies_in_order_against_the_store() {
    let mut state: StateOverlay<String, u8> = StateOverlay::new();
    state.put_account(account(1, 100));
    state.put_object(addr(9), "obj".to_string());
    let to = short(&addr(2));
    let msgs = vec![
        // Not covered: 100 < 500, nothing moves.
        message(to, ShardPayload::Transfer { from: short(&addr(1)), amount: 500 }),
        message(to, ShardPayload::Transfer { from: short(&addr(1)), amount: 60 }),
        // The second transfer now sees 40 left.
        message(to, ShardPayload::Transfer { from: short(&addr(1)), amount: 50 }),
        message(short(&addr(9)), ShardPayload::Eviction { reason: "gone".into() }),
        message(short(&addr(9)), ShardPayload::Eviction { reason: "again".into() }),
    ];
    let receipts = execute_cross_shard_messages(&mut state, &msgs, 4);
    let ok: Vec<bool> = receipts.iter().map(|r| r.success).collect();
    assert_eq!(ok, vec![false, true, false, true, false]);
    assert!(receipts.iter().all(|r| r.processed_at == 4));
    assert_eq!(state.get_account(&addr(1)).map(|a| a.balance), Some(40));
    assert_eq!(state.get_account(&addr(2)).map(|a| (a.balance, a.last_touched_epoch)), Some((60, 4)));
    assert_eq!(state.get_object(&addr(9)), None);
}

#[test]
fn message_list_transfer_to_self_keeps_balance() {
    let mut state: StateOverlay<String, u8> = StateOverlay::new();
    state.put_account(account(1, 100));
    let me = short(&addr(1));
    let msgs = vec![message(me, ShardPayload::Transfer { from: me, amount: 70 })];
    let receipts = execute_cross_shard_messages(&mut state, &msgs, 8);
    assert!(receipts[0].success);
    assert_eq!(state.get_account(&addr(1)).map(|a| (a.balance, a.last_touched_epoch)), Some((100, 8)));
}
